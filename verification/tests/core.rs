use claude_monitor::agents::{upsert_snapshot, AgentRegistry, AgentSettings, AgentSnapshot};
use claude_monitor::currency::{
    check_currency, currency_list, is_stale_at, is_supported, rates_url, CurrencyState,
};
use claude_monitor::groups::{
    apply_filter, build_groups, count_with_status, split_active, AgentGroup, Member,
};
use claude_monitor::hooks::{authorized, hook_reply, hook_url, hooks_status, random_token, HookServer};
use claude_monitor::order::{sort_by_key, str_lt};
use claude_monitor::parser::{parse_jsonl_line, ClaudeEvent};
use claude_monitor::prefs::{needs_history, pick_events, reset_pricing, set_settings, Prefs};
use claude_monitor::pricing::{
    default_pricing_table, fallback_family, merge_overrides, PriceFamily, PricingEntry, PricingTable,
};
use claude_monitor::status::{AgentStatus, Filter};
use claude_monitor::usage::{shell_breakdown, shell_head};
use claude_monitor::watcher::{
    detect_parent_id, events_of_raw_line, is_uuid_like, parent_from_dirs, session_id_from_stem,
};

const UUID: &str = "8f14e45f-ceea-467a-9575-ddd6f7f2c1a1";

#[test]
fn parses_assistant_lines_into_usage_text_and_tools() {
    let line = r#"{"type":"assistant","message":{"model":"vendor-opus-4-7","usage":{"input_tokens":10,"output_tokens":5,"cache_read_input_tokens":2},"content":[{"type":"text","text":"hi"},{"type":"tool_use","name":"Edit","id":"t1"},{"type":"text","text":""}]}}"#;
    let ev = parse_jsonl_line(line);
    assert_eq!(
        ev,
        vec![
            ClaudeEvent::Usage { input: 10, output: 5, cache: 2, model: "vendor-opus-4-7".into() },
            ClaudeEvent::AssistantText { text: "hi".into() },
            ClaudeEvent::ToolUseStart { tool: "Edit".into(), id: "t1".into() },
        ]
    );
}

#[test]
fn parses_system_user_and_unknown_lines() {
    assert_eq!(
        parse_jsonl_line(r#"{"type":"system","session_id":"s","cwd":"/p"}"#),
        vec![ClaudeEvent::SessionStart { session_id: "s".into(), project: "/p".into() }]
    );
    assert_eq!(
        parse_jsonl_line(r#"{"type":"system","project_path":"/q"}"#),
        vec![ClaudeEvent::SessionStart { session_id: "".into(), project: "/q".into() }]
    );
    assert_eq!(
        parse_jsonl_line(r#"{"type":"user","message":{"content":[{"type":"tool_result","tool_use_id":"t1"}]}}"#),
        vec![ClaudeEvent::ToolUseEnd { id: "t1".into() }]
    );
    assert_eq!(parse_jsonl_line(r#"{"type":"human","message":"hello"}"#), vec![ClaudeEvent::UserMessage]);
    assert_eq!(parse_jsonl_line(r#"{"type":"progress"}"#), vec![ClaudeEvent::Unknown]);
    assert_eq!(parse_jsonl_line("not json"), vec![]);
    assert_eq!(
        parse_jsonl_line(r#"{"type":"assistant","message":{"usage":{"input_tokens":0}}}"#),
        vec![]
    );
}

#[test]
fn registry_tracks_tokens_and_tools() {
    let mut reg = AgentRegistry::new();
    let evs = vec![
        ClaudeEvent::SessionStart { session_id: "s".into(), project: "/p".into() },
        ClaudeEvent::Usage { input: 10, output: 5, cache: 1, model: "m".into() },
        ClaudeEvent::ToolUseStart { tool: "Edit".into(), id: "t1".into() },
    ];
    let snap = reg.apply_events_at("s", &evs, 1_000, None, 1_000).unwrap();
    assert_eq!(snap.input_tokens, 10);
    assert_eq!(snap.output_tokens, 5);
    assert_eq!(snap.cache_tokens, 1);
    assert_eq!(snap.status, AgentStatus::Working);
    assert_eq!(snap.current_tool.as_deref(), Some("Edit"));
    let more = vec![ClaudeEvent::Usage { input: 1, output: 2, cache: 3, model: "m".into() }];
    let snap2 = reg.apply_events_at("s", &more, 2_000, None, 2_000).unwrap();
    assert_eq!((snap2.input_tokens, snap2.output_tokens, snap2.cache_tokens), (11, 7, 4));
    assert_eq!(snap2.started_at, 1_000);
    assert_eq!(snap2.last_activity, 2_000);
    assert!(reg.apply_events_at("s", &[], 3_000, None, 3_000).is_none());
    assert_eq!(reg.snapshot_all().len(), 1);
    assert_eq!(reg.snapshot_one("s").unwrap().input_tokens, 11);
    assert!(reg.snapshot_one("nope").is_none());
}

#[test]
fn quiet_agents_go_idle_and_ticks_settle() {
    let mut reg = AgentRegistry::new();
    let evs = vec![ClaudeEvent::AssistantText { text: "hello".into() }];
    reg.apply_events_at("s", &evs, 0, None, 0).unwrap();
    let later = 181_000;
    let (changed, _) = reg.tick_at(later);
    assert_eq!(changed.len(), 1);
    assert_eq!(changed[0].status, AgentStatus::Idle);
    let (again, waiting) = reg.tick_at(later);
    assert!(again.is_empty());
    assert!(waiting.is_empty());
}

#[test]
fn default_agent_settings() {
    let s = AgentSettings::default();
    assert_eq!(
        (s.idle_timeout_secs, s.permission_timeout_secs, s.text_idle_secs, s.message_preview_chars),
        (180, 7, 5, 280)
    );
}

#[test]
fn uuid_shapes() {
    assert!(is_uuid_like(UUID));
    assert!(is_uuid_like("8F14E45F-CEEA-467A-9575-DDD6F7F2C1A1"));
    assert!(!is_uuid_like("8f14e45f-ceea-467a-9575-ddd6f7f2c1a"));
    assert!(!is_uuid_like("8f14e45f_ceea-467a-9575-ddd6f7f2c1a1"));
    assert!(!is_uuid_like("g f14e45f-ceea-467a-9575-ddd6f7f2c1a"));
}

#[test]
fn sub_agent_parents() {
    assert_eq!(parent_from_dirs(Some("subagents"), Some(UUID)), Some(UUID.to_string()));
    assert_eq!(parent_from_dirs(Some("subagents"), Some("evil")), None);
    assert_eq!(parent_from_dirs(Some("other"), Some(UUID)), None);
    assert_eq!(parent_from_dirs(None, Some(UUID)), None);
    let path = format!("/home/u/.agent/projects/proj/{UUID}/subagents/agent-1.jsonl");
    assert_eq!(detect_parent_id(&path), Some(UUID.to_string()));
    assert_eq!(detect_parent_id("/home/u/.agent/projects/proj/s.jsonl"), None);
    assert_eq!(session_id_from_stem(Some("abc")), "abc");
    assert_eq!(session_id_from_stem(None), "unknown");
}

#[test]
fn raw_transcript_lines() {
    assert_eq!(events_of_raw_line(b"{\"type\":\"progress\"}\r\n"), vec![ClaudeEvent::Unknown]);
    assert_eq!(events_of_raw_line(b"   \n"), vec![]);
    assert_eq!(events_of_raw_line(&[0xff, 0xfe, b'\n']), vec![]);
}

#[test]
fn tokens_and_auth() {
    let t = random_token().unwrap();
    assert_eq!(t.len(), 64);
    assert!(t.chars().all(|c| c.is_ascii_hexdigit() && !c.is_ascii_uppercase()));
    assert_ne!(random_token().unwrap(), t);
    assert!(authorized(Some("secret"), "secret"));
    assert!(!authorized(Some("secre"), "secret"));
    assert!(!authorized(None, "secret"));
    assert_eq!(hook_reply(Some("x"), "y"), (401, "{\"error\":\"unauthorized\"}"));
    assert_eq!(hook_reply(Some("y"), "y"), (200, "{}"));
    assert_eq!(hook_url(51234), "http://127.0.0.1:51234/h");
}

#[test]
fn hooks_status_for_a_server_or_none() {
    let server = HookServer { url: hook_url(9), token: "t".into(), port: 9 };
    let s = hooks_status(Some(&server), true);
    assert!(s.registered);
    assert_eq!((s.url.as_str(), s.port), ("http://127.0.0.1:9/h", 9));
    let none = hooks_status(None, true);
    assert!(!none.registered);
    assert_eq!((none.url.as_str(), none.port), ("", 0));
}

#[test]
fn currencies() {
    assert!(is_supported("EUR"));
    assert!(!is_supported("XYZ"));
    assert_eq!(check_currency("XYZ").unwrap_err(), "unsupported currency: XYZ");
    assert!(check_currency("USD").is_ok());
    assert_eq!(
        rates_url(),
        "https://api.frankfurter.app/latest?from=USD&to=EUR,GBP,JPY,CNY,THB,SGD,INR,KRW,AUD"
    );
    let rates = vec![("EUR".to_string(), 92u32), ("USD".to_string(), 100u32)];
    let list = currency_list(Some(&rates), 100);
    assert_eq!(list.len(), 10);
    assert_eq!((list[0].code.as_str(), list[0].symbol.as_str(), list[0].rate), ("USD", "$", 100));
    assert_eq!((list[1].code.as_str(), list[1].rate), ("EUR", 92));
    assert_eq!((list[2].code.as_str(), list[2].rate), ("GBP", 100));
    assert!(currency_list::<u32>(None, 1).iter().all(|c| c.rate == 1));
}

#[test]
fn stale_rates() {
    let t = "2026-05-04T00:00:00Z";
    let base = 1_777_852_800_000i64;
    assert!(!is_stale_at(t, base));
    assert!(!is_stale_at(t, base + 86_399_999));
    assert!(is_stale_at(t, base + 86_400_000));
    assert!(is_stale_at("yesterday", base));
}

#[test]
fn prefs_edits() {
    let mut p: Prefs<Vec<u8>, ()> = Prefs::with_defaults(Vec::new());
    assert!(p.hooks_enabled && p.snapshots_enabled);
    assert_eq!(p.pricing_currency, "USD");
    assert_eq!(p.snapshot_retention_days, 14);
    set_settings(&mut p, false, 30);
    assert!(!p.snapshots_enabled);
    assert_eq!(p.snapshot_retention_days, 30);
    assert!(p.hooks_enabled);
    p.pricing_currency = "EUR".into();
    p.pricing_overrides = vec![1];
    reset_pricing(&mut p, Vec::new());
    assert_eq!(p.pricing_currency, "USD");
    assert!(p.pricing_overrides.is_empty());
}

#[test]
fn event_windows() {
    assert!(needs_history(3, None, None));
    assert!(!needs_history(200, None, None));
    assert!(!needs_history(3, Some(10), Some(false)));
    assert_eq!(pick_events(vec![1, 2], Some(vec![0, 1, 2])), vec![0, 1, 2]);
    assert_eq!(pick_events(vec![1, 2], Some(vec![])), vec![1, 2]);
    assert_eq!(pick_events(vec![1, 2], None), vec![1, 2]);
}

#[test]
fn pricing_rows_match_most_specific_first() {
    let t = default_pricing_table();
    assert_eq!(t.entries.len(), 13);
    assert_eq!(t.pricing_index("vendor-opus-4-7-20260101"), Some(0));
    assert_eq!(t.pricing_index("vendor-opus-4-20250514"), Some(4));
    assert_eq!(t.pricing_index("Vendor-Sonnet-4-5"), Some(7));
    assert_eq!(t.pricing_index("gpt-4"), None);
    assert_eq!(t.pricing_for("vendor-haiku-3-5-x", fallback_family()), PriceFamily::Haiku35);
    assert_eq!(t.pricing_for("mystery", fallback_family()), PriceFamily::Sonnet);
    assert!(t.entries[5].deprecated);
    assert_eq!(t.entries[5].label, "Opus 3");
}

#[test]
fn overrides_replace_rates_by_exact_id() {
    let table = PricingTable {
        entries: vec![
            PricingEntry { id: "a".into(), label: "A".into(), deprecated: false, pricing: 1u32 },
            PricingEntry { id: "b".into(), label: "B".into(), deprecated: true, pricing: 2u32 },
        ],
    };
    let merged = merge_overrides(table, &vec![("b".into(), 20u32), ("zzz".into(), 9), ("B".into(), 7)]);
    assert_eq!(merged.entries.len(), 2);
    assert_eq!(merged.entries[0].pricing, 1);
    assert_eq!(merged.entries[1].pricing, 20);
    assert_eq!(merged.entries[1].label, "B");
    assert!(merged.entries[1].deprecated);
}

#[test]
fn shell_buckets() {
    assert_eq!(shell_head("  git status -s"), "git");
    assert_eq!(shell_head("(cd /tmp && ls)"), "cd");
    assert_eq!(shell_head("./run.sh --fast"), "./run.sh");
    assert_eq!(shell_head("   "), "");
    assert_eq!(shell_head("\"\""), "");
}

#[test]
fn text_order_and_stable_sort() {
    assert!(str_lt("2026-05-04T10", "2026-05-04T11"));
    assert!(str_lt("a", "ab"));
    assert!(!str_lt("b", "ab"));
    assert!(!str_lt("x", "x"));
    let items = vec!['a', 'b', 'c', 'd'];
    let keys = vec![(1u8, "x".to_string()), (0, "y".to_string()), (1, "x".to_string()), (1, "z".to_string())];
    assert_eq!(sort_by_key(items, keys), vec!['b', 'd', 'a', 'c']);
}

fn member(id: &str, parent: Option<&str>, status: AgentStatus, last: &str) -> Member<u32> {
    Member {
        session_id: id.into(),
        parent_id: parent.map(String::from),
        status,
        last_activity: last.into(),
        data: 0,
    }
}

fn ids(g: &AgentGroup<u32>) -> (String, Vec<String>) {
    (g.parent.session_id.clone(), g.children.iter().map(|c| c.session_id.clone()).collect())
}

#[test]
fn groups_nest_children_and_sort_by_status_then_time() {
    let agents = vec![
        member("idle", None, AgentStatus::Idle, "2026-05-04T09"),
        member("p", None, AgentStatus::Waiting, "2026-05-04T08"),
        member("c1", Some("p"), AgentStatus::Working, "2026-05-04T07"),
        member("c2", Some("p"), AgentStatus::Idle, "2026-05-04T10"),
        member("orphan", Some("gone"), AgentStatus::Error, "2026-05-04T06"),
    ];
    let groups = build_groups(agents);
    let shape: Vec<_> = groups.iter().map(ids).collect();
    assert_eq!(
        shape,
        vec![
            ("orphan".to_string(), vec![]),
            ("p".to_string(), vec!["c2".to_string(), "c1".to_string()]),
            ("idle".to_string(), vec![]),
        ]
    );
    assert_eq!(groups[1].aggregate_status(), AgentStatus::Working);
    assert_eq!(groups[1].last_activity(), "2026-05-04T10");
}

#[test]
fn filter_keeps_parents_as_context() {
    let agents = vec![
        member("p", None, AgentStatus::Idle, "1"),
        member("c", Some("p"), AgentStatus::Working, "2"),
        member("q", None, AgentStatus::Idle, "3"),
    ];
    let active = apply_filter(build_groups(agents), Filter::Active);
    assert_eq!(active.len(), 1);
    assert_eq!(ids(&active[0]), ("p".to_string(), vec!["c".to_string()]));
}

#[test]
fn every_default_row_is_found_by_its_own_id() {
    let t = default_pricing_table();
    for (j, e) in t.entries.iter().enumerate() {
        let model = format!("vendor-{}-20260101", e.id);
        assert_eq!(t.pricing_index(&model), Some(j), "row {} shadowed", e.id);
    }
}

#[test]
fn shell_breakdown_counts_programs_most_used_first() {
    let cmds: Vec<String> = ["git status", "ls -la", "git push", "   ", "(cd /tmp && ls)", "git log"]
        .iter()
        .map(|s| s.to_string())
        .collect();
    let rows = shell_breakdown(&cmds);
    assert_eq!(rows, vec![("git".to_string(), 3), ("ls".to_string(), 1), ("cd".to_string(), 1)]);
    assert!(shell_breakdown(&Vec::new()).is_empty());
}

#[test]
fn active_rate_uses_the_active_currency_or_dollars() {
    let rates = vec![("EUR".to_string(), 92u32)];
    let list = currency_list(Some(&rates), 100u32);
    let mut state = CurrencyState { active: "EUR".to_string(), list, fetched_at: None };
    assert_eq!(state.active_rate(100), ("€".to_string(), 92));
    state.active = "XYZ".to_string();
    assert_eq!(state.active_rate(100), ("$".to_string(), 100));
    state.active = "GBP".to_string();
    assert_eq!(state.active_rate(100), ("£".to_string(), 100));
}

#[test]
fn parent_needs_a_subagents_directory() {
    assert_eq!(detect_parent_id("/p/x/y/f.jsonl"), None);
    let p = format!("/p/{}/other/f.jsonl", "123e4567-e89b-12d3-a456-426614174000");
    assert_eq!(detect_parent_id(&p), None);
    let p = format!("/p/{}/subagents/f.jsonl", "123e4567-e89b-12d3-a456-426614174000");
    assert_eq!(detect_parent_id(&p), Some("123e4567-e89b-12d3-a456-426614174000".to_string()));
}

#[test]
fn grandchildren_and_self_parents_head_their_own_groups() {
    let agents = vec![
        member("a", None, AgentStatus::Idle, "1"),
        member("b", Some("a"), AgentStatus::Idle, "2"),
        member("c", Some("b"), AgentStatus::Idle, "3"),
        member("s", Some("s"), AgentStatus::Idle, "4"),
    ];
    let groups = build_groups(agents);
    let mut shape: Vec<_> = groups.iter().map(ids).collect();
    shape.sort();
    assert_eq!(
        shape,
        vec![
            ("a".to_string(), vec!["b".to_string()]),
            ("c".to_string(), vec![]),
            ("s".to_string(), vec![]),
        ]
    );
}

fn snapshot(id: &str, status: AgentStatus) -> AgentSnapshot {
    AgentSnapshot {
        session_id: id.into(),
        project: String::new(),
        status,
        current_message: String::new(),
        current_tool: None,
        model: String::new(),
        input_tokens: 0,
        output_tokens: 0,
        cache_tokens: 0,
        last_activity: 0,
        started_at: 0,
        parent_id: None,
    }
}

#[test]
fn status_updates_replace_or_append() {
    let mut list = vec![snapshot("a", AgentStatus::Working), snapshot("b", AgentStatus::Working)];
    upsert_snapshot(&mut list, snapshot("b", AgentStatus::Waiting));
    upsert_snapshot(&mut list, snapshot("c", AgentStatus::Idle));
    let shape: Vec<_> = list.iter().map(|a| (a.session_id.clone(), a.status)).collect();
    assert_eq!(
        shape,
        vec![
            ("a".to_string(), AgentStatus::Working),
            ("b".to_string(), AgentStatus::Waiting),
            ("c".to_string(), AgentStatus::Idle),
        ]
    );
}

#[test]
fn group_counts_and_sections() {
    let agents = vec![
        member("w", None, AgentStatus::Working, "1"),
        member("i", None, AgentStatus::Idle, "2"),
        member("q", None, AgentStatus::Waiting, "3"),
        member("j", None, AgentStatus::Idle, "4"),
    ];
    let groups = build_groups(agents);
    assert_eq!(count_with_status(&groups, AgentStatus::Working), 1);
    assert_eq!(count_with_status(&groups, AgentStatus::Waiting), 1);
    assert_eq!(count_with_status(&groups, AgentStatus::Idle), 2);
    assert_eq!(count_with_status(&groups, AgentStatus::Error), 0);
    let (active, idle) = split_active(groups);
    let a: Vec<_> = active.iter().map(|g| g.parent.session_id.clone()).collect();
    let i: Vec<_> = idle.iter().map(|g| g.parent.session_id.clone()).collect();
    assert_eq!(a, vec!["q".to_string(), "w".to_string()]);
    assert_eq!(i, vec!["j".to_string(), "i".to_string()]);
}
