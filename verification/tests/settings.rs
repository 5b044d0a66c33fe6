use claude_monitor::json::{get_field, parse_json, render_pretty, JsonValue};
use claude_monitor::settings_writer::{
    is_registered_in, monitor_entry_value, register_in, settings_from_text, unregister_in,
};

fn doc(text: &str) -> JsonValue {
    parse_json(text).expect("test document parses")
}

const URL: &str = "http://127.0.0.1:4242/h";
const TOKEN: &str = "tok";

#[test]
fn blank_settings_text_is_an_empty_object() {
    assert_eq!(settings_from_text("  \n\t").unwrap(), JsonValue::Object(Vec::new()));
    assert_eq!(settings_from_text("").unwrap(), JsonValue::Object(Vec::new()));
}

#[test]
fn malformed_settings_text_is_an_error() {
    assert!(settings_from_text("{ not json").is_err());
}

#[test]
fn register_then_registered_for_that_url_only() {
    let s = register_in(doc("{}"), URL, TOKEN).unwrap();
    assert!(is_registered_in(&s, URL));
    assert!(!is_registered_in(&s, "http://127.0.0.1:1/h"));
}

#[test]
fn register_adds_one_entry_per_hook_event() {
    let s = register_in(doc("{}"), URL, TOKEN).unwrap();
    let hooks = match get_field(&s, "hooks") {
        Some(JsonValue::Object(h)) => h,
        other => panic!("hooks should be an object, got {other:?}"),
    };
    assert_eq!(hooks.len(), 11);
    for (_, v) in hooks {
        match v {
            JsonValue::Array(a) => {
                assert_eq!(a.len(), 1);
                assert_eq!(a[0], monitor_entry_value(URL, TOKEN));
            }
            other => panic!("event value should be an array, got {other:?}"),
        }
    }
}

#[test]
fn register_is_idempotent() {
    let once = register_in(doc(r#"{"theme":"dark","hooks":{"Stop":[{"x":1}]}}"#), URL, TOKEN).unwrap();
    let once_text = render_pretty(&once).unwrap();
    let twice = register_in(once, URL, TOKEN).unwrap();
    assert_eq!(render_pretty(&twice).unwrap(), once_text);
}

#[test]
fn register_replaces_an_old_monitor_entry_and_keeps_user_entries() {
    let before = doc(
        r#"{"hooks":{"Stop":[{"x":1},{"_claude_monitor":true,"hooks":[{"url":"old"}]},{"y":2}]}}"#,
    );
    let s = register_in(before, URL, TOKEN).unwrap();
    let stop = match get_field(get_field(&s, "hooks").unwrap(), "Stop") {
        Some(JsonValue::Array(a)) => a,
        other => panic!("Stop should be an array, got {other:?}"),
    };
    assert_eq!(stop.len(), 3);
    assert_eq!(stop[0], doc(r#"{"x":1}"#));
    assert_eq!(stop[1], monitor_entry_value(URL, TOKEN));
    assert_eq!(stop[2], doc(r#"{"y":2}"#));
    assert!(!is_registered_in(&s, "old"));
}

#[test]
fn register_keeps_other_settings() {
    let s = register_in(doc(r#"{"model":"opus","env":{"A":"1"}}"#), URL, TOKEN).unwrap();
    assert_eq!(get_field(&s, "model"), Some(&JsonValue::String("opus".into())));
    assert_eq!(get_field(&s, "env"), Some(&doc(r#"{"A":"1"}"#)));
}

#[test]
fn register_refuses_a_non_object_root() {
    assert_eq!(register_in(doc("[1]"), URL, TOKEN).unwrap_err(), "settings.json root is not an object");
}

#[test]
fn register_refuses_non_object_hooks() {
    assert_eq!(
        register_in(doc(r#"{"hooks":3}"#), URL, TOKEN).unwrap_err(),
        "settings.json `hooks` is not an object"
    );
}

#[test]
fn register_refuses_a_non_array_event() {
    assert_eq!(
        register_in(doc(r#"{"hooks":{"Stop":{}}}"#), URL, TOKEN).unwrap_err(),
        "settings.json `hooks.Stop` is not an array"
    );
}

#[test]
fn unregister_removes_only_monitor_entries() {
    let s = register_in(doc(r#"{"hooks":{"Stop":[{"x":1}]},"theme":"dark"}"#), URL, TOKEN).unwrap();
    let u = unregister_in(s).expect("hooks present, so there is something to rewrite");
    assert!(!is_registered_in(&u, URL));
    assert_eq!(u, doc(r#"{"hooks":{"Stop":[{"x":1}]},"theme":"dark"}"#));
}

#[test]
fn unregister_drops_emptied_hooks() {
    let s = register_in(doc(r#"{"theme":"dark"}"#), URL, TOKEN).unwrap();
    let u = unregister_in(s).unwrap();
    assert_eq!(u, doc(r#"{"theme":"dark"}"#));
}

#[test]
fn unregister_without_hooks_has_nothing_to_do() {
    assert_eq!(unregister_in(doc(r#"{"theme":"dark"}"#)), None);
    assert_eq!(unregister_in(doc("[]")), None);
}

#[test]
fn parsed_settings_render_back_pretty() {
    let text = render_pretty(&doc(r#"{"a":[1,true,null,"x"]}"#)).unwrap();
    assert_eq!(text, "{\n  \"a\": [\n    1,\n    true,\n    null,\n    \"x\"\n  ]\n}");
}

#[test]
fn register_and_unregister_leave_unknown_hook_members_alone() {
    let before = doc(r#"{"hooks":{"Custom":{"k":1},"Stop":[{"x":1}]}}"#);
    let s = register_in(before, URL, TOKEN).unwrap();
    let hooks = get_field(&s, "hooks").unwrap();
    assert_eq!(get_field(hooks, "Custom"), Some(&doc(r#"{"k":1}"#)));
    let u = unregister_in(s).unwrap();
    assert_eq!(u, doc(r#"{"hooks":{"Custom":{"k":1},"Stop":[{"x":1}]}}"#));
}
