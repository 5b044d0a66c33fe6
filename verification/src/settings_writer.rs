//! Edits of the coding agent's `settings.json` that register the monitor's HTTP
//! hooks. Every edit keeps the user's own settings: only entries tagged with
//! `_claude_monitor` are added, replaced or removed.

use vstd::prelude::*;
use crate::json::{
    Json, JsonValue, field_lookup, find_key, get_field, is_first_key, json_array, json_get,
    json_str, json_u64, lemma_view_fields, lemma_view_fields_push, lemma_view_fields_update,
    lemma_view_items, lemma_view_items_push, lemma_view_items_update, obj_set, lemma_obj_set_at,
    lemma_first_key, lemma_obj_set_lookup, lemma_obj_set_other, lemma_lookup_none, lemma_lookup_push,
    lemma_obj_set_same,
    parse_json, json_parse, view_fields, view_items, view_json,
};
use crate::text::{blank, is_blank, owned, push_str};

verus! {

/// The hook events the monitor listens to, in registration order.
pub open spec fn hook_events() -> Seq<Seq<char>> {
    seq![
        "UserPromptSubmit"@,
        "PreToolUse"@,
        "PostToolUse"@,
        "PostToolUseFailure"@,
        "Stop"@,
        "Notification"@,
        "PermissionRequest"@,
        "SessionStart"@,
        "SessionEnd"@,
        "SubagentStart"@,
        "SubagentStop"@,
    ]
}

/// The `i`-th hook event name.
pub fn hook_event(i: usize) -> (r: &'static str)
    requires
        i < 11,
    ensures
        r@ == hook_events()[i as int],
{
    match i {
        0 => "UserPromptSubmit",
        1 => "PreToolUse",
        2 => "PostToolUse",
        3 => "PostToolUseFailure",
        4 => "Stop",
        5 => "Notification",
        6 => "PermissionRequest",
        7 => "SessionStart",
        8 => "SessionEnd",
        9 => "SubagentStart",
        _ => "SubagentStop",
    }
}

/// An entry is the monitor's when its `_claude_monitor` member is `true`.
pub open spec fn is_tagged(e: Json) -> bool {
    json_get(e, "_claude_monitor"@) == Some(Json::Bool(true))
}

/// The monitor's hook entry: one HTTP hook posting to `url` with the
/// `X-Auth: token` header and a 5 s timeout.
pub open spec fn monitor_entry(url: Seq<char>, token: Seq<char>) -> Json {
    Json::Object(
        seq![
            ("_claude_monitor"@, Json::Bool(true)),
            (
                "hooks"@,
                Json::Array(
                    seq![
                        Json::Object(
                            seq![
                                ("type"@, Json::Str("http"@)),
                                ("url"@, Json::Str(url)),
                                ("headers"@, Json::Object(seq![("X-Auth"@, Json::Str(token))])),
                                ("timeout"@, Json::Number("5"@, Some(5u64))),
                            ],
                        ),
                    ],
                ),
            ),
        ],
    )
}

pub open spec fn is_first_tagged(a: Seq<Json>, i: int) -> bool {
    0 <= i < a.len() && is_tagged(a[i]) && forall|j: int| 0 <= j < i ==> !is_tagged(#[trigger] a[j])
}

/// `a` with its first monitor entry replaced by `e`, or `e` appended when
/// it has none.
pub open spec fn upsert(a: Seq<Json>, e: Json) -> Seq<Json> {
    if exists|i: int| is_first_tagged(a, i) {
        a.update(choose|i: int| is_first_tagged(a, i), e)
    } else {
        a.push(e)
    }
}

pub open spec fn not_array_msg(evt: Seq<char>) -> Seq<char> {
    "settings.json `hooks."@ + evt + "` is not an array"@
}

/// Registration of one hook event in the `hooks` members `f`.
pub open spec fn reg_one(f: Seq<(Seq<char>, Json)>, evt: Seq<char>, e: Json) -> Result<
    Seq<(Seq<char>, Json)>,
    Seq<char>,
> {
    match field_lookup(f, evt) {
        None => Ok(obj_set(f, evt, Json::Array(seq![e]))),
        Some(Json::Array(a)) => Ok(obj_set(f, evt, Json::Array(upsert(a, e)))),
        Some(_) => Err(not_array_msg(evt)),
    }
}

/// Registration of the events `evts`, in order, stopping at the first error.
pub open spec fn reg_all(f: Seq<(Seq<char>, Json)>, evts: Seq<Seq<char>>, e: Json) -> Result<
    Seq<(Seq<char>, Json)>,
    Seq<char>,
>
    decreases evts.len(),
{
    if evts.len() == 0 {
        Ok(f)
    } else {
        match reg_all(f, evts.drop_last(), e) {
            Ok(g) => reg_one(g, evts.last(), e),
            Err(m) => Err(m),
        }
    }
}

/// The settings document with the monitor's hooks registered for `url`, or
/// the error that stops the edit.
pub open spec fn register_spec(s: Json, url: Seq<char>, token: Seq<char>) -> Result<Json, Seq<char>> {
    match s {
        Json::Object(root) => {
            let hooks = match field_lookup(root, "hooks"@) {
                None => Some(Seq::<(Seq<char>, Json)>::empty()),
                Some(Json::Object(h)) => Some(h),
                Some(_) => None,
            };
            match hooks {
                None => Err("settings.json `hooks` is not an object"@),
                Some(h) => match reg_all(h, hook_events(), monitor_entry(url, token)) {
                    Ok(h2) => Ok(Json::Object(obj_set(root, "hooks"@, Json::Object(h2)))),
                    Err(m) => Err(m),
                },
            }
        },
        _ => Err("settings.json root is not an object"@),
    }
}

/// `a` without the monitor's entries.
pub open spec fn untagged(a: Seq<Json>) -> Seq<Json>
    decreases a.len(),
{
    if a.len() == 0 {
        a
    } else {
        let r = untagged(a.drop_last());
        if is_tagged(a.last()) {
            r
        } else {
            r.push(a.last())
        }
    }
}

/// `hooks` members with the monitor's entries taken out of every array,
/// and arrays left empty dropped.
pub open spec fn strip_hooks(h: Seq<(Seq<char>, Json)>) -> Seq<(Seq<char>, Json)>
    decreases h.len(),
{
    if h.len() == 0 {
        h
    } else {
        let r = strip_hooks(h.drop_last());
        let (k, v) = h.last();
        match v {
            Json::Array(a) => {
                let a2 = untagged(a);
                if a2.len() == 0 {
                    r
                } else {
                    r.push((k, Json::Array(a2)))
                }
            },
            _ => r.push((k, v)),
        }
    }
}

/// `fields` without the members named `key`.
pub open spec fn remove_key(f: Seq<(Seq<char>, Json)>, key: Seq<char>) -> Seq<(Seq<char>, Json)>
    decreases f.len(),
{
    if f.len() == 0 {
        f
    } else {
        let r = remove_key(f.drop_last(), key);
        if f.last().0 == key {
            r
        } else {
            r.push(f.last())
        }
    }
}

/// The settings document without the monitor's hooks; `None` when there is
/// nothing to rewrite (the root or its `hooks` is not an object, or there
/// is no `hooks`). A `hooks` left empty is removed.
pub open spec fn unregister_spec(s: Json) -> Option<Json> {
    match s {
        Json::Object(root) => match field_lookup(root, "hooks"@) {
            Some(Json::Object(h)) => {
                let h2 = strip_hooks(h);
                Some(
                    Json::Object(
                        if h2.len() == 0 {
                            remove_key(root, "hooks"@)
                        } else {
                            obj_set(root, "hooks"@, Json::Object(h2))
                        },
                    ),
                )
            },
            _ => None,
        },
        _ => None,
    }
}

/// A monitor entry whose hooks include one posting to `url`.
pub open spec fn entry_posts_to(e: Json, url: Seq<char>) -> bool {
    is_tagged(e) && match json_array(json_get(e, "hooks"@)) {
        Some(inner) => exists|j: int|
            0 <= j < inner.len() && json_str(json_get(#[trigger] inner[j], "url"@)) == Some(url),
        None => false,
    }
}

/// Some entry of `a` is a monitor entry posting to `url`.
pub open spec fn items_post_to(a: Seq<Json>, url: Seq<char>) -> bool {
    exists|i: int| 0 <= i < a.len() && entry_posts_to(#[trigger] a[i], url)
}

/// A hook event's array holding a monitor entry that posts to `url`.
pub open spec fn value_posts_to(v: Json, url: Seq<char>) -> bool {
    match v {
        Json::Array(a) => items_post_to(a, url),
        _ => false,
    }
}

/// Some hook event of `h` holds a monitor entry posting to `url`.
pub open spec fn events_post_to(h: Seq<(Seq<char>, Json)>, url: Seq<char>) -> bool {
    exists|k: int| 0 <= k < h.len() && value_posts_to(#[trigger] h[k].1, url)
}

/// The monitor's hooks are registered for `url`: some hook event holds a
/// monitor entry posting to it.
pub open spec fn registered_spec(s: Json, url: Seq<char>) -> bool {
    match json_get(s, "hooks"@) {
        Some(Json::Object(h)) => events_post_to(h, url),
        _ => false,
    }
}


fn push_member(fields: &mut Vec<(String, JsonValue)>, key: &str, v: JsonValue)
    ensures
        view_fields(final(fields)@) == view_fields(old(fields)@).push((key@, v@)),
{
    let ghost f0 = fields@;
    fields.push((owned(key), v));
    proof {
        lemma_view_fields_push(f0, fields@[f0.len() as int]);
        assert(fields@ =~= f0.push(fields@[f0.len() as int]));
    }
}

fn push_item(items: &mut Vec<JsonValue>, v: JsonValue)
    ensures
        view_items(final(items)@) == view_items(old(items)@).push(v@),
{
    let ghost f0 = items@;
    items.push(v);
    proof {
        lemma_view_items_push(f0, v);
        assert(items@ =~= f0.push(v));
    }
}

/// The monitor's hook entry for `url` and `token`.
pub fn monitor_entry_value(url: &str, token: &str) -> (r: JsonValue)
    ensures
        r@ == monitor_entry(url@, token@),
{
    proof {
        assert(view_fields(Seq::<(String, JsonValue)>::empty()) =~= Seq::<(Seq<char>, Json)>::empty());
        assert(view_items(Seq::<JsonValue>::empty()) =~= Seq::<Json>::empty());
    }
    let mut headers: Vec<(String, JsonValue)> = Vec::new();
    push_member(&mut headers, "X-Auth", JsonValue::String(owned(token)));
    assert(view_fields(headers@) =~= seq![("X-Auth"@, Json::Str(token@))]);
    let mut hook: Vec<(String, JsonValue)> = Vec::new();
    push_member(&mut hook, "type", JsonValue::String(owned("http")));
    push_member(&mut hook, "url", JsonValue::String(owned(url)));
    let ghost hv = view_fields(headers@);
    push_member(&mut hook, "headers", JsonValue::Object(headers));
    push_member(&mut hook, "timeout", JsonValue::Number(owned("5"), Some(5)));
    let ghost hookv = seq![
        ("type"@, Json::Str("http"@)),
        ("url"@, Json::Str(url@)),
        ("headers"@, Json::Object(seq![("X-Auth"@, Json::Str(token@))])),
        ("timeout"@, Json::Number("5"@, Some(5u64))),
    ];
    assert(view_fields(hook@) =~= hookv);
    let mut inner: Vec<JsonValue> = Vec::new();
    push_item(&mut inner, JsonValue::Object(hook));
    assert(view_items(inner@) =~= seq![Json::Object(hookv)]);
    let mut entry: Vec<(String, JsonValue)> = Vec::new();
    push_member(&mut entry, "_claude_monitor", JsonValue::Bool(true));
    push_member(&mut entry, "hooks", JsonValue::Array(inner));
    let r = JsonValue::Object(entry);
    proof {
        assert(view_fields(entry@) =~= seq![
            ("_claude_monitor"@, Json::Bool(true)),
            ("hooks"@, Json::Array(seq![Json::Object(hookv)])),
        ]);
    }
    r
}

fn is_tagged_value(e: &JsonValue) -> (r: bool)
    ensures
        r == is_tagged(e@),
{
    match get_field(e, "_claude_monitor") {
        Some(JsonValue::Bool(b)) => *b,
        _ => false,
    }
}

fn first_tagged(a: &Vec<JsonValue>) -> (r: Option<usize>)
    ensures
        match r {
            Some(i) => is_first_tagged(view_items(a@), i as int),
            None => forall|j: int| 0 <= j < a@.len() ==> !is_tagged(#[trigger] view_items(a@)[j]),
        },
        view_items(a@).len() == a@.len(),
{
    proof {
        lemma_view_items(a@);
    }
    let mut i: usize = 0;
    while i < a.len()
        invariant
            i <= a.len(),
            view_items(a@).len() == a@.len(),
            forall|j: int| 0 <= j < a@.len() ==> #[trigger] view_items(a@)[j] == a@[j]@,
            forall|j: int| 0 <= j < i ==> !is_tagged(#[trigger] view_items(a@)[j]),
        decreases a.len() - i,
    {
        if is_tagged_value(&a[i]) {
            return Some(i);
        }
        i += 1;
    }
    None
}

proof fn lemma_upsert_at(a: Seq<Json>, e: Json, i: int)
    requires
        is_first_tagged(a, i),
    ensures
        upsert(a, e) == a.update(i, e),
{
    let k = choose|k: int| is_first_tagged(a, k);
    assert(is_first_tagged(a, k));
    if k < i {
        assert(!is_tagged(a[k]));
    }
    if i < k {
        assert(!is_tagged(a[i]));
    }
}

fn upsert_value(a: &mut Vec<JsonValue>, e: JsonValue)
    ensures
        view_items(final(a)@) == upsert(view_items(old(a)@), e@),
{
    let ghost a0 = a@;
    match first_tagged(a) {
        Some(i) => {
            proof {
                lemma_upsert_at(view_items(a0), e@, i as int);
            }
            let _old = a.remove(i);
            a.insert(i, e);
            proof {
                assert(a@ =~= a0.update(i as int, e));
                lemma_view_items_update(a0, i as int, e);
            }
        },
        None => {
            proof {
                assert(!exists|k: int| is_first_tagged(view_items(a0), k));
            }
            push_item(a, e);
        },
    }
}

fn not_array_message(evt: &str) -> (r: String)
    ensures
        r@ == not_array_msg(evt@),
{
    let mut m = owned("settings.json `hooks.");
    push_str(&mut m, evt);
    push_str(&mut m, "` is not an array");
    m
}

fn register_one(f: &mut Vec<(String, JsonValue)>, evt: &str, url: &str, token: &str) -> (r: Result<(), String>)
    ensures
        match r {
            Ok(_) => reg_one(view_fields(old(f)@), evt@, monitor_entry(url@, token@)) == Ok::<
                Seq<(Seq<char>, Json)>,
                Seq<char>,
            >(view_fields(final(f)@)),
            Err(m) => reg_one(view_fields(old(f)@), evt@, monitor_entry(url@, token@)) == Err::<
                Seq<(Seq<char>, Json)>,
                Seq<char>,
            >(m@),
        },
{
    let ghost f0 = f@;
    match find_key(f, evt) {
        None => {
            let mut a: Vec<JsonValue> = Vec::new();
            push_item(&mut a, monitor_entry_value(url, token));
            assert(view_items(Seq::<JsonValue>::empty()) =~= Seq::<Json>::empty());
            push_member(f, evt, JsonValue::Array(a));
            proof {
                assert(!exists|k: int| is_first_key(view_fields(f0), evt@, k));
            }
            Ok(())
        },
        Some(i) => {
            let (k, v) = f.remove(i);
            match v {
                JsonValue::Array(a) => {
                    let mut a = a;
                    let ghost av = view_items(a@);
                    upsert_value(&mut a, monitor_entry_value(url, token));
                    let ghost newv = JsonValue::Array(a);
                    f.insert(i, (k, JsonValue::Array(a)));
                    proof {
                        lemma_view_fields(f0);
                        assert(f@ =~= f0.update(i as int, f@[i as int]));
                        lemma_view_fields_update(f0, i as int, f@[i as int]);
                        lemma_obj_set_at(
                            view_fields(f0),
                            evt@,
                            Json::Array(upsert(av, monitor_entry(url@, token@))),
                            i as int,
                        );
                    }
                    Ok(())
                },
                other => {
                    proof {
                        lemma_view_fields(f0);
                    }
                    Err(not_array_message(evt))
                },
            }
        },
    }
}


fn register_all(f: &mut Vec<(String, JsonValue)>, url: &str, token: &str) -> (r: Result<(), String>)
    ensures
        match r {
            Ok(_) => reg_all(view_fields(old(f)@), hook_events(), monitor_entry(url@, token@)) == Ok::<
                Seq<(Seq<char>, Json)>,
                Seq<char>,
            >(view_fields(final(f)@)),
            Err(m) => reg_all(view_fields(old(f)@), hook_events(), monitor_entry(url@, token@))
                == Err::<Seq<(Seq<char>, Json)>, Seq<char>>(m@),
        },
{
    let ghost f0 = view_fields(f@);
    let ghost e = monitor_entry(url@, token@);
    let ghost evts = hook_events();
    let mut k: usize = 0;
    while k < 11
        invariant
            k <= 11,
            f0 == view_fields(old(f)@),
            evts == hook_events(),
            e == monitor_entry(url@, token@),
            reg_all(f0, evts.subrange(0, k as int), e) == Ok::<
                Seq<(Seq<char>, Json)>,
                Seq<char>,
            >(view_fields(f@)),
        decreases 11 - k,
    {
        let ghost before = view_fields(f@);
        let evt = hook_event(k);
        let step = register_one(f, evt, url, token);
        proof {
            let pre = evts.subrange(0, k + 1);
            assert(pre.drop_last() =~= evts.subrange(0, k as int));
            assert(pre.last() == evts[k as int]);
        }
        match step {
            Ok(_) => {},
            Err(m) => {
                proof {
                    let pre = evts.subrange(0, k + 1);
                    assert(reg_all(f0, pre.drop_last(), e) == Ok::<
                        Seq<(Seq<char>, Json)>,
                        Seq<char>,
                    >(before));
                    assert(reg_one(before, evts[k as int], e) == Err::<
                        Seq<(Seq<char>, Json)>,
                        Seq<char>,
                    >(m@));
                    assert(reg_all(f0, pre, e) == Err::<Seq<(Seq<char>, Json)>, Seq<char>>(m@));
                    lemma_reg_all_err_stays(f0, evts, e, k as int + 1, m@);
                }
                return Err(m);
            },
        }
        k += 1;
    }
    assert(evts.subrange(0, 11) =~= evts);
    Ok(())
}

proof fn lemma_reg_all_err_stays(
    f: Seq<(Seq<char>, Json)>,
    evts: Seq<Seq<char>>,
    e: Json,
    k: int,
    m: Seq<char>,
)
    requires
        0 <= k <= evts.len(),
        reg_all(f, evts.subrange(0, k), e) == Err::<Seq<(Seq<char>, Json)>, Seq<char>>(m),
    ensures
        reg_all(f, evts, e) == Err::<Seq<(Seq<char>, Json)>, Seq<char>>(m),
    decreases evts.len() - k,
{
    if k < evts.len() {
        let pre = evts.subrange(0, k + 1);
        assert(pre.drop_last() =~= evts.subrange(0, k));
        lemma_reg_all_err_stays(f, evts, e, k + 1, m);
    } else {
        assert(evts.subrange(0, k) =~= evts);
    }
}

/// The settings document with the monitor's hooks registered: one entry
/// posting to `url` with `X-Auth: token` under each hook event, replacing
/// an earlier monitor entry, appended otherwise. Fails when the root, its
/// `hooks`, or one event's value has the wrong shape.
pub fn register_in(settings: JsonValue, url: &str, token: &str) -> (r: Result<JsonValue, String>)
    ensures
        match r {
            Ok(v) => register_spec(settings@, url@, token@) == Ok::<Json, Seq<char>>(v@),
            Err(m) => register_spec(settings@, url@, token@) == Err::<Json, Seq<char>>(m@),
        },
{
    let ghost s0 = settings@;
    match settings {
        JsonValue::Object(root) => {
            let mut root = root;
            let ghost r0 = root@;
            proof {
                lemma_view_fields(r0);
            }
            let idx = find_key(&root, "hooks");
            let mut hooks: Vec<(String, JsonValue)> = match idx {
                None => Vec::new(),
                Some(i) => {
                    let (_k, v) = root.remove(i);
                    match v {
                        JsonValue::Object(h) => h,
                        _ => {
                            return Err(owned("settings.json `hooks` is not an object"));
                        },
                    }
                },
            };
            proof {
                assert(view_fields(Seq::<(String, JsonValue)>::empty()) =~= Seq::<
                    (Seq<char>, Json),
                >::empty());
            }
            let ghost h0 = view_fields(hooks@);
            match register_all(&mut hooks, url, token) {
                Ok(_) => {},
                Err(m) => {
                    return Err(m);
                },
            }
            let ghost h2 = view_fields(hooks@);
            let ghost newv = Json::Object(h2);
            match idx {
                Some(i) => {
                    root.insert(i, (owned("hooks"), JsonValue::Object(hooks)));
                    proof {
                        assert(root@ =~= r0.update(i as int, root@[i as int]));
                        lemma_view_fields_update(r0, i as int, root@[i as int]);
                        lemma_obj_set_at(view_fields(r0), "hooks"@, newv, i as int);
                    }
                },
                None => {
                    push_member(&mut root, "hooks", JsonValue::Object(hooks));
                    proof {
                        assert(!exists|k: int| is_first_key(view_fields(r0), "hooks"@, k));
                    }
                },
            }
            Ok(JsonValue::Object(root))
        },
        _ => Err(owned("settings.json root is not an object")),
    }
}

fn entry_posts(e: &JsonValue, url: &str) -> (r: bool)
    ensures
        r == entry_posts_to(e@, url@),
{
    if !is_tagged_value(e) {
        return false;
    }
    match crate::json::as_array(get_field(e, "hooks")) {
        Some(inner) => {
            proof {
                lemma_view_items(inner@);
            }
            let ghost iv = view_items(inner@);
            let mut j: usize = 0;
            while j < inner.len()
                invariant
                    j <= inner.len(),
                    iv == view_items(inner@),
                    is_tagged(e@),
                    json_array(json_get(e@, "hooks"@)) == Some(iv),
                    iv.len() == inner@.len(),
                    forall|m: int| 0 <= m < inner@.len() ==> #[trigger] iv[m] == inner@[m]@,
                    forall|m: int|
                        0 <= m < j ==> json_str(json_get(#[trigger] iv[m], "url"@)) != Some(url@),
                decreases inner.len() - j,
            {
                match crate::json::as_str(get_field(&inner[j], "url")) {
                    Some(u) => {
                        if crate::text::str_eq(u, url) {
                            assert(json_str(json_get(iv[j as int], "url"@)) == Some(url@));
                            return true;
                        }
                    },
                    None => {},
                }
                j += 1;
            }
            false
        },
        None => false,
    }
}

fn value_posts(v: &JsonValue, url: &str) -> (r: bool)
    ensures
        r == value_posts_to(v@, url@),
{
    match v {
        JsonValue::Array(a) => {
            proof {
                lemma_view_items(a@);
            }
            let ghost av = view_items(a@);
            assert(v@ == Json::Array(av));
            let mut i: usize = 0;
            while i < a.len()
                invariant
                    i <= a.len(),
                    av == view_items(a@),
                    v@ == Json::Array(av),
                    av.len() == a@.len(),
                    forall|m: int| 0 <= m < a@.len() ==> #[trigger] av[m] == a@[m]@,
                    forall|m: int| 0 <= m < i ==> !entry_posts_to(#[trigger] av[m], url@),
                decreases a.len() - i,
            {
                if entry_posts(&a[i], url) {
                    assert(entry_posts_to(av[i as int], url@));
                    assert(items_post_to(av, url@));
                    return true;
                }
                i += 1;
            }
            false
        },
        _ => false,
    }
}

/// Whether the monitor's hooks in `settings` post to `url`.
pub fn is_registered_in(settings: &JsonValue, url: &str) -> (r: bool)
    ensures
        r == registered_spec(settings@, url@),
{
    match get_field(settings, "hooks") {
        Some(JsonValue::Object(h)) => {
            proof {
                lemma_view_fields(h@);
            }
            let ghost hv = view_fields(h@);
            let mut k: usize = 0;
            while k < h.len()
                invariant
                    k <= h.len(),
                    hv == view_fields(h@),
                    json_get(settings@, "hooks"@) == Some(Json::Object(hv)),
                    hv.len() == h@.len(),
                    forall|m: int| 0 <= m < h@.len() ==> #[trigger] hv[m] == (h@[m].0@, h@[m].1@),
                    forall|m: int| 0 <= m < k ==> !value_posts_to(#[trigger] hv[m].1, url@),
                decreases h.len() - k,
            {
                if value_posts(&h[k].1, url) {
                    assert(value_posts_to(hv[k as int].1, url@));
                    assert(registered_spec(settings@, url@));
                    return true;
                }
                k += 1;
            }
            false
        },
        _ => false,
    }
}


proof fn lemma_untagged_step(a: Seq<Json>, k: int)
    requires
        0 <= k < a.len(),
    ensures
        untagged(a.subrange(0, k + 1)) == if is_tagged(a[k]) {
            untagged(a.subrange(0, k))
        } else {
            untagged(a.subrange(0, k)).push(a[k])
        },
{
    assert(a.subrange(0, k + 1).drop_last() =~= a.subrange(0, k));
}

/// The entries of `a` that are not the monitor's, in order.
fn untagged_items(a: Vec<JsonValue>) -> (r: Vec<JsonValue>)
    ensures
        view_items(r@) == untagged(view_items(a@)),
{
    proof {
        lemma_view_items(a@);
    }
    let ghost av = view_items(a@);
    let ghost n = a@.len();
    assert(a@.len() == a.len());
    let ghost a0 = a@;
    let mut rest = a;
    let mut out: Vec<JsonValue> = Vec::new();
    let mut k: usize = 0;
    assert(view_items(Seq::<JsonValue>::empty()) =~= Seq::<Json>::empty());
    assert(av.subrange(0, 0) =~= Seq::<Json>::empty());
    while rest.len() > 0
        invariant
            av == view_items(a0),
            av.len() == n,
            a0.len() == n,
            forall|j: int| 0 <= j < n ==> #[trigger] av[j] == a0[j]@,
            k + rest@.len() == n,
            n <= usize::MAX,
            rest@ == a0.subrange(k as int, n as int),
            view_items(out@) == untagged(av.subrange(0, k as int)),
        decreases rest@.len(),
    {
        let x = rest.remove(0);
        proof {
            assert(x == a0[k as int]);
            lemma_untagged_step(av, k as int);
        }
        if !is_tagged_value(&x) {
            push_item(&mut out, x);
        }
        k += 1;
        assert(rest@ =~= a0.subrange(k as int, n as int));
    }
    assert(av.subrange(0, n as int) =~= av);
    out
}

proof fn lemma_strip_step(h: Seq<(Seq<char>, Json)>, k: int)
    requires
        0 <= k < h.len(),
    ensures
        strip_hooks(h.subrange(0, k + 1)) == match h[k].1 {
            Json::Array(a) => if untagged(a).len() == 0 {
                strip_hooks(h.subrange(0, k))
            } else {
                strip_hooks(h.subrange(0, k)).push((h[k].0, Json::Array(untagged(a))))
            },
            _ => strip_hooks(h.subrange(0, k)).push(h[k]),
        },
{
    assert(h.subrange(0, k + 1).drop_last() =~= h.subrange(0, k));
}

/// The `hooks` members without the monitor's entries; arrays left empty
/// are dropped.
fn strip_hook_fields(h: Vec<(String, JsonValue)>) -> (r: Vec<(String, JsonValue)>)
    ensures
        view_fields(r@) == strip_hooks(view_fields(h@)),
{
    proof {
        lemma_view_fields(h@);
    }
    let ghost hv = view_fields(h@);
    let ghost n = h@.len();
    assert(h@.len() == h.len());
    let ghost h0 = h@;
    let mut rest = h;
    let mut out: Vec<(String, JsonValue)> = Vec::new();
    let mut k: usize = 0;
    assert(view_fields(Seq::<(String, JsonValue)>::empty()) =~= Seq::<(Seq<char>, Json)>::empty());
    assert(hv.subrange(0, 0) =~= Seq::<(Seq<char>, Json)>::empty());
    while rest.len() > 0
        invariant
            hv == view_fields(h0),
            hv.len() == n,
            h0.len() == n,
            forall|j: int| 0 <= j < n ==> #[trigger] hv[j] == (h0[j].0@, h0[j].1@),
            k + rest@.len() == n,
            n <= usize::MAX,
            rest@ == h0.subrange(k as int, n as int),
            view_fields(out@) == strip_hooks(hv.subrange(0, k as int)),
        decreases rest@.len(),
    {
        let (key, v) = rest.remove(0);
        proof {
            assert((key, v) == h0[k as int]);
            lemma_strip_step(hv, k as int);
        }
        match v {
            JsonValue::Array(a) => {
                let kept = untagged_items(a);
                if kept.len() > 0 {
                    proof {
                        lemma_view_items(kept@);
                    }
                    let ghost f0 = out@;
                    out.push((key, JsonValue::Array(kept)));
                    proof {
                        lemma_view_fields_push(f0, out@[f0.len() as int]);
                        assert(out@ =~= f0.push(out@[f0.len() as int]));
                    }
                } else {
                    proof {
                        lemma_view_items(kept@);
                    }
                }
            },
            other => {
                let ghost f0 = out@;
                out.push((key, other));
                proof {
                    lemma_view_fields_push(f0, out@[f0.len() as int]);
                    assert(out@ =~= f0.push(out@[f0.len() as int]));
                }
            },
        }
        k += 1;
        assert(rest@ =~= h0.subrange(k as int, n as int));
    }
    assert(hv.subrange(0, n as int) =~= hv);
    out
}

proof fn lemma_remove_key_step(f: Seq<(Seq<char>, Json)>, key: Seq<char>, k: int)
    requires
        0 <= k < f.len(),
    ensures
        remove_key(f.subrange(0, k + 1), key) == if f[k].0 == key {
            remove_key(f.subrange(0, k), key)
        } else {
            remove_key(f.subrange(0, k), key).push(f[k])
        },
{
    assert(f.subrange(0, k + 1).drop_last() =~= f.subrange(0, k));
}

proof fn lemma_remove_key_same(f: Seq<(Seq<char>, Json)>, g: Seq<(Seq<char>, Json)>, key: Seq<char>)
    requires
        f.len() == g.len(),
        forall|j: int| 0 <= j < f.len() ==> #[trigger] f[j].0 == g[j].0,
        forall|j: int| 0 <= j < f.len() && f[j].0 != key ==> #[trigger] f[j] == g[j],
    ensures
        remove_key(f, key) == remove_key(g, key),
    decreases f.len(),
{
    if f.len() > 0 {
        let n = f.len() - 1;
        assert(f[n].0 == g[n].0);
        lemma_remove_key_same(f.drop_last(), g.drop_last(), key);
    }
}

/// `fields` without its members named `key`.
fn remove_member(fields: Vec<(String, JsonValue)>, key: &str) -> (r: Vec<(String, JsonValue)>)
    ensures
        view_fields(r@) == remove_key(view_fields(fields@), key@),
{
    proof {
        lemma_view_fields(fields@);
    }
    let ghost fv = view_fields(fields@);
    let ghost n = fields@.len();
    assert(fields@.len() == fields.len());
    let ghost f0 = fields@;
    let mut rest = fields;
    let mut out: Vec<(String, JsonValue)> = Vec::new();
    let mut k: usize = 0;
    assert(view_fields(Seq::<(String, JsonValue)>::empty()) =~= Seq::<(Seq<char>, Json)>::empty());
    assert(fv.subrange(0, 0) =~= Seq::<(Seq<char>, Json)>::empty());
    while rest.len() > 0
        invariant
            fv == view_fields(f0),
            fv.len() == n,
            f0.len() == n,
            forall|j: int| 0 <= j < n ==> #[trigger] fv[j] == (f0[j].0@, f0[j].1@),
            k + rest@.len() == n,
            n <= usize::MAX,
            rest@ == f0.subrange(k as int, n as int),
            view_fields(out@) == remove_key(fv.subrange(0, k as int), key@),
        decreases rest@.len(),
    {
        let m = rest.remove(0);
        proof {
            assert(m == f0[k as int]);
            lemma_remove_key_step(fv, key@, k as int);
        }
        if !crate::text::str_eq(m.0.as_str(), key) {
            let ghost o0 = out@;
            out.push(m);
            proof {
                lemma_view_fields_push(o0, out@[o0.len() as int]);
                assert(out@ =~= o0.push(out@[o0.len() as int]));
            }
        }
        k += 1;
        assert(rest@ =~= f0.subrange(k as int, n as int));
    }
    assert(fv.subrange(0, n as int) =~= fv);
    out
}

/// The settings document without the monitor's hook entries: arrays left
/// empty lose their event, and a `hooks` left empty is removed. `None`
/// when there is nothing to rewrite: the root is not an object, or it has
/// no `hooks` object.
pub fn unregister_in(settings: JsonValue) -> (r: Option<JsonValue>)
    ensures
        match r {
            Some(v) => unregister_spec(settings@) == Some(v@),
            None => unregister_spec(settings@) is None,
        },
{
    match settings {
        JsonValue::Object(root) => {
            let mut root = root;
            let ghost r0 = root@;
            proof {
                lemma_view_fields(r0);
            }
            match find_key(&root, "hooks") {
                Some(i) => {
                    let (k, v) = root.remove(i);
                    match v {
                        JsonValue::Object(h) => {
                            let h2 = strip_hook_fields(h);
                            proof {
                                lemma_view_fields(h2@);
                            }
                            if h2.len() == 0 {
                                root.insert(i, (k, JsonValue::Object(h2)));
                                proof {
                                    assert(root@ =~= r0.update(i as int, root@[i as int]));
                                    lemma_view_fields_update(r0, i as int, root@[i as int]);
                                    lemma_view_fields(root@);
                                    lemma_remove_key_same(view_fields(root@), view_fields(r0), "hooks"@);
                                }
                                Some(JsonValue::Object(remove_member(root, "hooks")))
                            } else {
                                let ghost newv = Json::Object(view_fields(h2@));
                                root.insert(i, (k, JsonValue::Object(h2)));
                                proof {
                                    assert(root@ =~= r0.update(i as int, root@[i as int]));
                                    lemma_view_fields_update(r0, i as int, root@[i as int]);
                                    lemma_obj_set_at(view_fields(r0), "hooks"@, newv, i as int);
                                }
                                Some(JsonValue::Object(root))
                            }
                        },
                        _ => None,
                    }
                },
                None => None,
            }
        },
        _ => None,
    }
}

/// The settings document held by the text of `settings.json`: an empty
/// object when the text is blank, else what `serde_json` parses, or its
/// error.
pub fn settings_from_text(raw: &str) -> (r: Result<JsonValue, String>)
    ensures
        match r {
            Ok(v) => if blank(raw@) {
                v@ == Json::Object(Seq::empty())
            } else {
                json_parse(raw@) == Some(v@)
            },
            Err(_) => !blank(raw@) && json_parse(raw@) is None,
        },
{
    if is_blank(raw) {
        let empty: Vec<(String, JsonValue)> = Vec::new();
        assert(view_fields(empty@) =~= Seq::<(Seq<char>, Json)>::empty());
        Ok(JsonValue::Object(empty))
    } else {
        parse_json(raw)
    }
}


proof fn lemma_monitor_entry_posts(url: Seq<char>, token: Seq<char>)
    ensures
        is_tagged(monitor_entry(url, token)),
        entry_posts_to(monitor_entry(url, token), url),
{
    reveal_strlit("_claude_monitor");
    reveal_strlit("hooks");
    reveal_strlit("type");
    reveal_strlit("url");
    let e = monitor_entry(url, token);
    let f = e->Object_0;
    assert(is_first_key(f, "_claude_monitor"@, 0));
    lemma_first_key(f, "_claude_monitor"@, 0);
    assert("_claude_monitor"@.len() == 15 && "hooks"@.len() == 5);
    assert(f[0].0 != "hooks"@);
    assert(is_first_key(f, "hooks"@, 1));
    lemma_first_key(f, "hooks"@, 1);
    let inner = json_array(json_get(e, "hooks"@))->Some_0;
    let hf = inner[0]->Object_0;
    assert("type"@.len() == 4 && "url"@.len() == 3);
    assert(hf[0].0 != "url"@);
    assert(is_first_key(hf, "url"@, 1));
    lemma_first_key(hf, "url"@, 1);
    assert(json_str(json_get(inner[0], "url"@)) == Some(url));
}

proof fn lemma_upsert_holds(a: Seq<Json>, e: Json)
    ensures
        exists|i: int| 0 <= i < upsert(a, e).len() && upsert(a, e)[i] == e,
{
    if exists|i: int| is_first_tagged(a, i) {
        let i = choose|i: int| is_first_tagged(a, i);
        assert(upsert(a, e)[i] == e);
    } else {
        assert(upsert(a, e)[a.len() as int] == e);
    }
}

/// After one event's registration, that event holds an array with `e`.
proof fn lemma_reg_one_holds(f: Seq<(Seq<char>, Json)>, evt: Seq<char>, e: Json)
    requires
        reg_one(f, evt, e) is Ok,
    ensures
        exists|a: Seq<Json>|
            field_lookup(reg_one(f, evt, e)->Ok_0, evt) == Some(Json::Array(a)) && exists|i: int|
                0 <= i < a.len() && #[trigger] a[i] == e,
{
    match field_lookup(f, evt) {
        None => {
            let a = seq![e];
            lemma_obj_set_lookup(f, evt, Json::Array(a));
            assert(a[0] == e);
        },
        Some(Json::Array(a0)) => {
            let a = upsert(a0, e);
            lemma_obj_set_lookup(f, evt, Json::Array(a));
            lemma_upsert_holds(a0, e);
        },
        Some(_) => {},
    }
}

/// A member lookup that finds `x` finds a member holding `x`.
proof fn lemma_lookup_member(f: Seq<(Seq<char>, Json)>, key: Seq<char>, x: Json)
    requires
        field_lookup(f, key) == Some(x),
    ensures
        exists|k: int| 0 <= k < f.len() && #[trigger] f[k] == (key, x),
{
    let k = choose|k: int| is_first_key(f, key, k);
    assert(f[k] == (key, x));
}

/// Law: once `register_in` succeeds for `url`, `is_registered_in` finds the
/// hooks registered for `url`.
pub proof fn law_registered_after_register(s: Json, url: Seq<char>, token: Seq<char>)
    requires
        register_spec(s, url, token) is Ok,
    ensures
        registered_spec(register_spec(s, url, token)->Ok_0, url),
{
    let e = monitor_entry(url, token);
    lemma_monitor_entry_posts(url, token);
    let root = s->Object_0;
    let h = match field_lookup(root, "hooks"@) {
        Some(Json::Object(h)) => h,
        _ => Seq::<(Seq<char>, Json)>::empty(),
    };
    let evts = hook_events();
    let h2 = reg_all(h, evts, e)->Ok_0;
    let g = reg_all(h, evts.drop_last(), e)->Ok_0;
    assert(reg_all(h, evts, e) == reg_one(g, evts.last(), e));
    lemma_reg_one_holds(g, evts.last(), e);
    let a = choose|a: Seq<Json>|
        field_lookup(h2, evts.last()) == Some(Json::Array(a)) && exists|i: int|
            0 <= i < a.len() && #[trigger] a[i] == e;
    let i = choose|i: int| 0 <= i < a.len() && #[trigger] a[i] == e;
    assert(items_post_to(a, url));
    lemma_lookup_member(h2, evts.last(), Json::Array(a));
    let k = choose|k: int| 0 <= k < h2.len() && #[trigger] h2[k] == (evts.last(), Json::Array(a));
    assert(value_posts_to(h2[k].1, url));
    assert(events_post_to(h2, url));
    lemma_obj_set_lookup(root, "hooks"@, Json::Object(h2));
}


proof fn lemma_untagged_clean(a: Seq<Json>)
    ensures
        forall|i: int| 0 <= i < untagged(a).len() ==> !is_tagged(#[trigger] untagged(a)[i]),
    decreases a.len(),
{
    if a.len() > 0 {
        let r = untagged(a.drop_last());
        lemma_untagged_clean(a.drop_last());
        assert forall|i: int| 0 <= i < untagged(a).len() implies !is_tagged(
            #[trigger] untagged(a)[i],
        ) by {
            if i < r.len() {
                assert(!is_tagged(r[i]));
            }
        }
    }
}

proof fn lemma_strip_clean(h: Seq<(Seq<char>, Json)>, url: Seq<char>)
    ensures
        forall|k: int| 0 <= k < strip_hooks(h).len() ==> !value_posts_to(#[trigger] strip_hooks(h)[k].1, url),
    decreases h.len(),
{
    if h.len() > 0 {
        let r = strip_hooks(h.drop_last());
        lemma_strip_clean(h.drop_last(), url);
        let (key, v) = h.last();
        match v {
            Json::Array(a) => {
                lemma_untagged_clean(a);
                assert(!items_post_to(untagged(a), url));
            },
            _ => {},
        }
        assert forall|k: int| 0 <= k < strip_hooks(h).len() implies !value_posts_to(
            #[trigger] strip_hooks(h)[k].1,
            url,
        ) by {
            if k < r.len() {
                assert(!value_posts_to(r[k].1, url));
            }
        }
    }
}

proof fn lemma_remove_key_gone(f: Seq<(Seq<char>, Json)>, key: Seq<char>)
    ensures
        forall|i: int| 0 <= i < remove_key(f, key).len() ==> #[trigger] remove_key(f, key)[i].0 != key,
    decreases f.len(),
{
    if f.len() > 0 {
        let r = remove_key(f.drop_last(), key);
        lemma_remove_key_gone(f.drop_last(), key);
        assert forall|i: int| 0 <= i < remove_key(f, key).len() implies #[trigger] remove_key(
            f,
            key,
        )[i].0 != key by {
            if i < r.len() {
                assert(r[i].0 != key);
            }
        }
    }
}

/// Law: after `unregister_in` rewrites the settings, `is_registered_in`
/// finds no URL registered: no monitor entry is left.
pub proof fn law_unregistered_after_unregister(s: Json, url: Seq<char>)
    requires
        unregister_spec(s) is Some,
    ensures
        !registered_spec(unregister_spec(s)->Some_0, url),
{
    let root = s->Object_0;
    let h = field_lookup(root, "hooks"@)->Some_0->Object_0;
    let h2 = strip_hooks(h);
    if h2.len() == 0 {
        let r = remove_key(root, "hooks"@);
        lemma_remove_key_gone(root, "hooks"@);
        lemma_lookup_none(r, "hooks"@);
    } else {
        lemma_obj_set_lookup(root, "hooks"@, Json::Object(h2));
        lemma_strip_clean(h, url);
    }
}


proof fn lemma_remove_key_lookup(f: Seq<(Seq<char>, Json)>, key: Seq<char>, other: Seq<char>)
    requires
        other != key,
    ensures
        field_lookup(remove_key(f, key), other) == field_lookup(f, other),
    decreases f.len(),
{
    if f.len() == 0 {
        lemma_lookup_none(f, other);
        lemma_lookup_none(remove_key(f, key), other);
    } else {
        let d = f.drop_last();
        lemma_remove_key_lookup(d, key, other);
        assert(d.push(f.last()) =~= f);
        lemma_lookup_push(d, f.last(), other);
        if f.last().0 != key {
            lemma_lookup_push(remove_key(d, key), f.last(), other);
        }
    }
}

/// Law: `register_in` leaves every top-level setting other than `hooks` as
/// it was.
pub proof fn law_register_keeps_other_settings(s: Json, url: Seq<char>, token: Seq<char>, key: Seq<char>)
    requires
        register_spec(s, url, token) is Ok,
        key != "hooks"@,
    ensures
        json_get(register_spec(s, url, token)->Ok_0, key) == json_get(s, key),
{
    let root = s->Object_0;
    let h = match field_lookup(root, "hooks"@) {
        Some(Json::Object(h)) => h,
        _ => Seq::<(Seq<char>, Json)>::empty(),
    };
    let h2 = reg_all(h, hook_events(), monitor_entry(url, token))->Ok_0;
    lemma_obj_set_other(root, "hooks"@, Json::Object(h2), key);
}

/// Law: `unregister_in` leaves every top-level setting other than `hooks`
/// as it was.
pub proof fn law_unregister_keeps_other_settings(s: Json, key: Seq<char>)
    requires
        unregister_spec(s) is Some,
        key != "hooks"@,
    ensures
        json_get(unregister_spec(s)->Some_0, key) == json_get(s, key),
{
    let root = s->Object_0;
    let h = field_lookup(root, "hooks"@)->Some_0->Object_0;
    let h2 = strip_hooks(h);
    if h2.len() == 0 {
        lemma_remove_key_lookup(root, "hooks"@, key);
    } else {
        lemma_obj_set_other(root, "hooks"@, Json::Object(h2), key);
    }
}


proof fn lemma_upsert_twice(a: Seq<Json>, e: Json)
    requires
        is_tagged(e),
    ensures
        upsert(upsert(a, e), e) == upsert(a, e),
{
    let b = upsert(a, e);
    if exists|i: int| is_first_tagged(a, i) {
        let i = choose|i: int| is_first_tagged(a, i);
        assert(is_first_tagged(b, i));
        lemma_upsert_at(b, e, i);
        assert(b.update(i, e) =~= b);
    } else {
        let n = a.len() as int;
        assert forall|j: int| 0 <= j < n implies !is_tagged(#[trigger] a[j]) by {
            if is_tagged(a[j]) {
                lemma_first_tagged_exists(a, j);
            }
        }
        assert(is_first_tagged(b, n));
        lemma_upsert_at(b, e, n);
        assert(b.update(n, e) =~= b);
    }
}

proof fn lemma_first_tagged_exists(a: Seq<Json>, j: int)
    requires
        0 <= j < a.len(),
        is_tagged(a[j]),
    ensures
        exists|i: int| is_first_tagged(a, i),
    decreases j,
{
    if forall|m: int| 0 <= m < j ==> !is_tagged(#[trigger] a[m]) {
        assert(is_first_tagged(a, j));
    } else {
        let m = choose|m: int| 0 <= m < j && is_tagged(#[trigger] a[m]);
        lemma_first_tagged_exists(a, m);
    }
}

/// `evt` holds an array that a further registration of `e` leaves alone.
spec fn settled(h: Seq<(Seq<char>, Json)>, evt: Seq<char>, e: Json) -> bool {
    exists|a: Seq<Json>| field_lookup(h, evt) == Some(Json::Array(a)) && #[trigger] upsert(a, e) == a
}

proof fn lemma_reg_all_settled(h: Seq<(Seq<char>, Json)>, evts: Seq<Seq<char>>, e: Json)
    requires
        forall|j: int| 0 <= j < evts.len() ==> settled(h, #[trigger] evts[j], e),
    ensures
        reg_all(h, evts, e) == Ok::<Seq<(Seq<char>, Json)>, Seq<char>>(h),
    decreases evts.len(),
{
    if evts.len() > 0 {
        let d = evts.drop_last();
        assert forall|j: int| 0 <= j < d.len() implies settled(h, #[trigger] d[j], e) by {
            assert(d[j] == evts[j]);
        }
        lemma_reg_all_settled(h, d, e);
        let last = evts.last();
        assert(settled(h, evts[evts.len() - 1], e));
        let a = choose|a: Seq<Json>| field_lookup(h, last) == Some(Json::Array(a)) && #[trigger] upsert(a, e) == a;
        lemma_obj_set_same(h, last, Json::Array(a));
    }
}

/// The hook event names are pairwise distinct.
proof fn lemma_hook_events_distinct()
    ensures
        forall|i: int, j: int|
            0 <= i < j < 11 ==> #[trigger] hook_events()[i] != #[trigger] hook_events()[j],
{
    reveal_strlit("UserPromptSubmit");
    reveal_strlit("PreToolUse");
    reveal_strlit("PostToolUse");
    reveal_strlit("PostToolUseFailure");
    reveal_strlit("Stop");
    reveal_strlit("Notification");
    reveal_strlit("PermissionRequest");
    reveal_strlit("SessionStart");
    reveal_strlit("SessionEnd");
    reveal_strlit("SubagentStart");
    reveal_strlit("SubagentStop");
    let ev = hook_events();
    assert forall|i: int, j: int| 0 <= i < j < 11 implies #[trigger] ev[i] != #[trigger] ev[j] by {
        if ev[i].len() == ev[j].len() {
            assert(ev[i][0] != ev[j][0] || ev[i][1] != ev[j][1] || ev[i][4] != ev[j][4] || ev[i][8]
                != ev[j][8] || ev[i][9] != ev[j][9] || ev[i][10] != ev[j][10] || ev[i][11] != ev[j][11]);
        }
    }
}

proof fn lemma_reg_all_settles(h: Seq<(Seq<char>, Json)>, evts: Seq<Seq<char>>, e: Json)
    requires
        is_tagged(e),
        reg_all(h, evts, e) is Ok,
        forall|i: int, j: int| 0 <= i < j < evts.len() ==> #[trigger] evts[i] != #[trigger] evts[j],
    ensures
        forall|j: int| 0 <= j < evts.len() ==> settled(reg_all(h, evts, e)->Ok_0, #[trigger] evts[j], e),
    decreases evts.len(),
{
    if evts.len() > 0 {
        let d = evts.drop_last();
        let last = evts.last();
        assert forall|i: int, j: int| 0 <= i < j < d.len() implies #[trigger] d[i] != #[trigger] d[j] by {
            assert(d[i] == evts[i] && d[j] == evts[j]);
        }
        lemma_reg_all_settles(h, d, e);
        let g = reg_all(h, d, e)->Ok_0;
        let g2 = reg_all(h, evts, e)->Ok_0;
        let val = match field_lookup(g, last) {
            None => Json::Array(seq![e]),
            Some(Json::Array(a0)) => Json::Array(upsert(a0, e)),
            Some(_) => Json::Null,
        };
        assert(g2 == obj_set(g, last, val));
        lemma_obj_set_lookup(g, last, val);
        assert forall|j: int| 0 <= j < evts.len() implies settled(g2, #[trigger] evts[j], e) by {
            if j < d.len() {
                assert(evts[j] != last);
                assert(settled(g, d[j], e));
                lemma_obj_set_other(g, last, val, evts[j]);
                let a = choose|a: Seq<Json>| field_lookup(g, d[j]) == Some(Json::Array(a)) && #[trigger] upsert(a, e) == a;
                assert(field_lookup(g2, evts[j]) == Some(Json::Array(a)));
            } else {
                match field_lookup(g, last) {
                    None => {
                        let a = seq![e];
                        assert(is_first_tagged(a, 0));
                        lemma_upsert_at(a, e, 0);
                        assert(a.update(0, e) =~= a);
                        assert(upsert(a, e) == a);
                    },
                    Some(Json::Array(a0)) => {
                        lemma_upsert_twice(a0, e);
                        assert(upsert(upsert(a0, e), e) == upsert(a0, e));
                    },
                    Some(_) => {},
                }
            }
        }
    }
}

/// Law: registering twice with the same `url` and `token` gives the same
/// settings as registering once.
pub proof fn law_register_idempotent(s: Json, url: Seq<char>, token: Seq<char>)
    requires
        register_spec(s, url, token) is Ok,
    ensures
        register_spec(register_spec(s, url, token)->Ok_0, url, token) == register_spec(s, url, token),
{
    let e = monitor_entry(url, token);
    lemma_monitor_entry_posts(url, token);
    lemma_hook_events_distinct();
    let root = s->Object_0;
    let h = match field_lookup(root, "hooks"@) {
        Some(Json::Object(h)) => h,
        _ => Seq::<(Seq<char>, Json)>::empty(),
    };
    let evts = hook_events();
    let h2 = reg_all(h, evts, e)->Ok_0;
    let root2 = obj_set(root, "hooks"@, Json::Object(h2));
    lemma_reg_all_settles(h, evts, e);
    lemma_reg_all_settled(h2, evts, e);
    lemma_obj_set_lookup(root, "hooks"@, Json::Object(h2));
    lemma_obj_set_same(root2, "hooks"@, Json::Object(h2));
}


/// The user's own entries of a hook event: the entries of its array that
/// are not the monitor's (none when the event has no array).
pub open spec fn user_entries(v: Option<Json>) -> Seq<Json> {
    match v {
        Some(Json::Array(a)) => untagged(a),
        _ => Seq::empty(),
    }
}

/// The members of a settings document's `hooks` object (none when it has
/// no such object).
pub open spec fn hooks_fields(s: Json) -> Seq<(Seq<char>, Json)> {
    match json_get(s, "hooks"@) {
        Some(Json::Object(h)) => h,
        _ => Seq::empty(),
    }
}

/// No two members share a key, as in a parsed JSON object.
pub open spec fn keys_distinct(f: Seq<(Seq<char>, Json)>) -> bool {
    forall|i: int, j: int| 0 <= i < j < f.len() ==> #[trigger] f[i].0 != #[trigger] f[j].0
}

proof fn lemma_untagged_update(a: Seq<Json>, i: int, x: Json)
    requires
        0 <= i < a.len(),
        is_tagged(a[i]),
        is_tagged(x),
    ensures
        untagged(a.update(i, x)) == untagged(a),
    decreases a.len(),
{
    let b = a.update(i, x);
    if i == a.len() - 1 {
        assert(b.drop_last() =~= a.drop_last());
    } else {
        lemma_untagged_update(a.drop_last(), i, x);
        assert(b.drop_last() =~= a.drop_last().update(i, x));
    }
}

proof fn lemma_untagged_upsert(a: Seq<Json>, e: Json)
    requires
        is_tagged(e),
    ensures
        untagged(upsert(a, e)) == untagged(a),
{
    if exists|i: int| is_first_tagged(a, i) {
        let i = choose|i: int| is_first_tagged(a, i);
        lemma_untagged_update(a, i, e);
    } else {
        assert(a.push(e).drop_last() =~= a);
    }
}

proof fn lemma_reg_all_users(f: Seq<(Seq<char>, Json)>, evts: Seq<Seq<char>>, e: Json, key: Seq<char>)
    requires
        reg_all(f, evts, e) is Ok,
        is_tagged(e),
    ensures
        evts.contains(key) ==> field_lookup(reg_all(f, evts, e)->Ok_0, key) matches Some(Json::Array(_)),
        evts.contains(key) ==> user_entries(field_lookup(reg_all(f, evts, e)->Ok_0, key))
            == user_entries(field_lookup(f, key)),
        !evts.contains(key) ==> field_lookup(reg_all(f, evts, e)->Ok_0, key) == field_lookup(f, key),
    decreases evts.len(),
{
    if evts.len() > 0 {
        let pre = evts.drop_last();
        let evt = evts.last();
        lemma_reg_all_users(f, pre, e, key);
        let g = reg_all(f, pre, e)->Ok_0;
        let g2 = reg_one(g, evt, e)->Ok_0;
        assert(evts.contains(key) <==> pre.contains(key) || evt == key) by {
            if evts.contains(key) {
                let m = choose|m: int| 0 <= m < evts.len() && evts[m] == key;
                if m < evts.len() - 1 {
                    assert(pre[m] == key);
                }
            }
            if pre.contains(key) {
                let m = choose|m: int| 0 <= m < pre.len() && pre[m] == key;
                assert(evts[m] == key);
            }
            if evt == key {
                assert(evts[evts.len() - 1] == key);
            }
        }
        if evt == key {
            match field_lookup(g, evt) {
                None => {
                    lemma_obj_set_lookup(g, evt, Json::Array(seq![e]));
                    let one = seq![e];
                    assert(one.drop_last() =~= Seq::<Json>::empty());
                    assert(one.last() == e);
                    assert(untagged(Seq::<Json>::empty()) == Seq::<Json>::empty());
                    assert(untagged(one) == untagged(one.drop_last()));
                },
                Some(Json::Array(a)) => {
                    lemma_obj_set_lookup(g, evt, Json::Array(upsert(a, e)));
                    lemma_untagged_upsert(a, e);
                },
                Some(_) => {},
            }
        } else {
            match field_lookup(g, evt) {
                None => lemma_obj_set_other(g, evt, Json::Array(seq![e]), key),
                Some(Json::Array(a)) => lemma_obj_set_other(g, evt, Json::Array(upsert(a, e)), key),
                Some(_) => {},
            }
        }
    }
}

/// Law: `register_in` keeps the user's own hooks. Every hook event it
/// registers ends up with an array whose entries, apart from the
/// monitor's, are the user's entries as they were, in order; every other
/// member of `hooks` is left as it was.
pub proof fn law_register_keeps_user_hooks(s: Json, url: Seq<char>, token: Seq<char>, evt: Seq<char>)
    requires
        register_spec(s, url, token) is Ok,
    ensures
        hook_events().contains(evt) ==> field_lookup(
            hooks_fields(register_spec(s, url, token)->Ok_0),
            evt,
        ) matches Some(Json::Array(_)),
        hook_events().contains(evt) ==> user_entries(
            field_lookup(hooks_fields(register_spec(s, url, token)->Ok_0), evt),
        ) == user_entries(field_lookup(hooks_fields(s), evt)),
        !hook_events().contains(evt) ==> field_lookup(
            hooks_fields(register_spec(s, url, token)->Ok_0),
            evt,
        ) == field_lookup(hooks_fields(s), evt),
{
    let e = monitor_entry(url, token);
    lemma_monitor_entry_posts(url, token);
    let root = s->Object_0;
    let h = match field_lookup(root, "hooks"@) {
        Some(Json::Object(h)) => h,
        _ => Seq::<(Seq<char>, Json)>::empty(),
    };
    assert(hooks_fields(s) == h);
    let h2 = reg_all(h, hook_events(), e)->Ok_0;
    lemma_obj_set_lookup(root, "hooks"@, Json::Object(h2));
    assert(hooks_fields(register_spec(s, url, token)->Ok_0) == h2);
    lemma_reg_all_users(h, hook_events(), e, evt);
}

proof fn lemma_untagged_idem(a: Seq<Json>)
    ensures
        untagged(untagged(a)) == untagged(a),
    decreases a.len(),
{
    if a.len() > 0 {
        lemma_untagged_idem(a.drop_last());
        let r = untagged(a.drop_last());
        if !is_tagged(a.last()) {
            assert(r.push(a.last()).drop_last() =~= r);
        }
    }
}

proof fn lemma_strip_users(h: Seq<(Seq<char>, Json)>, key: Seq<char>)
    requires
        keys_distinct(h),
    ensures
        user_entries(field_lookup(strip_hooks(h), key)) == user_entries(field_lookup(h, key)),
        field_lookup(h, key) matches Some(v) ==> (!(v is Array) ==> field_lookup(strip_hooks(h), key)
            == Some(v)),
        field_lookup(h, key) is None ==> field_lookup(strip_hooks(h), key) is None,
    decreases h.len(),
{
    if h.len() > 0 {
        let d = h.drop_last();
        let (k, v) = h.last();
        assert(keys_distinct(d)) by {
            assert forall|i: int, j: int| 0 <= i < j < d.len() implies #[trigger] d[i].0 != #[trigger] d[j].0 by {
                assert(d[i] == h[i] && d[j] == h[j]);
            }
        }
        lemma_strip_users(d, key);
        assert(h =~= d.push((k, v)));
        lemma_lookup_push(d, (k, v), key);
        let r = strip_hooks(d);
        if k == key {
            lemma_lookup_none(d, key);
            assert(field_lookup(d, key) is None) by {
                if field_lookup(d, key) is Some {
                    let m = choose|m: int| is_first_key(d, key, m);
                    assert(h[m].0 == h[h.len() - 1].0);
                }
            }
        }
        match v {
            Json::Array(a) => {
                let a2 = untagged(a);
                if a2.len() > 0 {
                    lemma_lookup_push(r, (k, Json::Array(a2)), key);
                    lemma_untagged_idem(a);
                }
                if k == key && a2.len() == 0 {
                    assert(a2 =~= Seq::<Json>::empty());
                }
            },
            _ => {
                lemma_lookup_push(r, (k, v), key);
            },
        }
    }
}

proof fn lemma_strip_empty_users(h: Seq<(Seq<char>, Json)>, key: Seq<char>)
    requires
        keys_distinct(h),
        strip_hooks(h).len() == 0,
    ensures
        user_entries(field_lookup(h, key)).len() == 0,
{
    lemma_strip_users(h, key);
    lemma_lookup_none(strip_hooks(h), key);
}

/// Law: `unregister_in` keeps the user's own hooks. For every hook event
/// the entries that are not the monitor's stay as they were, in order; a
/// member of `hooks` that is not an array stays as it was.
pub proof fn law_unregister_keeps_user_hooks(s: Json, evt: Seq<char>)
    requires
        unregister_spec(s) is Some,
        keys_distinct(hooks_fields(s)),
    ensures
        user_entries(field_lookup(hooks_fields(unregister_spec(s)->Some_0), evt)) == user_entries(
            field_lookup(hooks_fields(s), evt),
        ),
        field_lookup(hooks_fields(s), evt) matches Some(v) ==> (!(v is Array) ==> field_lookup(
            hooks_fields(unregister_spec(s)->Some_0),
            evt,
        ) == Some(v)),
{
    let root = s->Object_0;
    let h = field_lookup(root, "hooks"@)->Some_0->Object_0;
    assert(hooks_fields(s) == h);
    let h2 = strip_hooks(h);
    lemma_strip_users(h, evt);
    if h2.len() == 0 {
        lemma_remove_key_gone(root, "hooks"@);
        lemma_lookup_none(remove_key(root, "hooks"@), "hooks"@);
        assert(hooks_fields(unregister_spec(s)->Some_0) == Seq::<(Seq<char>, Json)>::empty());
        lemma_lookup_none(Seq::<(Seq<char>, Json)>::empty(), evt);
        lemma_strip_empty_users(h, evt);
        lemma_lookup_none(h2, evt);
        assert(user_entries(field_lookup(h, evt)) =~= Seq::<Json>::empty());
    } else {
        lemma_obj_set_lookup(root, "hooks"@, Json::Object(h2));
        assert(hooks_fields(unregister_spec(s)->Some_0) == h2);
    }
}


/// At most one entry of `a` is the monitor's.
pub open spec fn at_most_one_tagged(a: Seq<Json>) -> bool {
    forall|t1: int, t2: int|
        0 <= t1 < a.len() && 0 <= t2 < a.len() && is_tagged(#[trigger] a[t1]) && is_tagged(#[trigger] a[t2])
            ==> t1 == t2
}

/// `a` holds `e` and no other monitor entry: exactly one of its entries is
/// the monitor's, and it is `e`.
pub open spec fn one_monitor_entry(a: Seq<Json>, e: Json) -> bool {
    exists|t: int|
        0 <= t < a.len() && a[t] == e && forall|t2: int|
            0 <= t2 < a.len() && is_tagged(#[trigger] a[t2]) ==> t2 == t
}

proof fn lemma_upsert_one(a: Seq<Json>, e: Json)
    requires
        is_tagged(e),
        at_most_one_tagged(a),
    ensures
        one_monitor_entry(upsert(a, e), e),
{
    if exists|i: int| is_first_tagged(a, i) {
        let i = choose|i: int| is_first_tagged(a, i);
        lemma_upsert_at(a, e, i);
        let b = a.update(i, e);
        assert forall|t2: int| 0 <= t2 < b.len() && is_tagged(#[trigger] b[t2]) implies t2 == i by {
            if t2 != i {
                assert(b[t2] == a[t2]);
            }
        }
        assert(b[i] == e);
    } else {
        let b = a.push(e);
        assert forall|t2: int| 0 <= t2 < b.len() && is_tagged(#[trigger] b[t2]) implies t2 == a.len() by {
            if t2 < a.len() {
                assert(b[t2] == a[t2]);
                assert(!is_first_tagged(a, t2));
                let j = choose|j: int| 0 <= j < t2 && is_tagged(#[trigger] a[j]);
                assert(j == t2);
            }
        }
        assert(b[a.len() as int] == e);
    }
}

proof fn lemma_reg_all_one(f: Seq<(Seq<char>, Json)>, evts: Seq<Seq<char>>, e: Json, key: Seq<char>)
    requires
        reg_all(f, evts, e) is Ok,
        is_tagged(e),
        evts.contains(key),
        forall|i: int, j: int| 0 <= i < j < evts.len() ==> #[trigger] evts[i] != #[trigger] evts[j],
        field_lookup(f, key) matches Some(Json::Array(a)) ==> at_most_one_tagged(a),
    ensures
        field_lookup(reg_all(f, evts, e)->Ok_0, key) matches Some(Json::Array(b)) && one_monitor_entry(b, e),
    decreases evts.len(),
{
    let pre = evts.drop_last();
    let evt = evts.last();
    let g = reg_all(f, pre, e)->Ok_0;
    assert forall|i: int, j: int| 0 <= i < j < pre.len() implies #[trigger] pre[i] != #[trigger] pre[j] by {
        assert(pre[i] == evts[i] && pre[j] == evts[j]);
    }
    if evt == key {
        if pre.contains(key) {
            let m = choose|m: int| 0 <= m < pre.len() && pre[m] == key;
            assert(evts[m] == evts[evts.len() - 1]);
        }
        lemma_reg_all_users(f, pre, e, key);
        assert(field_lookup(g, key) == field_lookup(f, key));
        match field_lookup(g, evt) {
            None => {
                lemma_obj_set_lookup(g, evt, Json::Array(seq![e]));
                let one = seq![e];
                assert(one[0] == e);
                assert(at_most_one_tagged(Seq::<Json>::empty()));
                assert(one =~= Seq::<Json>::empty().push(e));
                lemma_upsert_one(Seq::<Json>::empty(), e);
                assert(!(exists|i: int| is_first_tagged(Seq::<Json>::empty(), i)));
                assert(upsert(Seq::<Json>::empty(), e) == one);
            },
            Some(Json::Array(a)) => {
                lemma_obj_set_lookup(g, evt, Json::Array(upsert(a, e)));
                lemma_upsert_one(a, e);
            },
            Some(_) => {},
        }
    } else {
        let m = choose|m: int| 0 <= m < evts.len() && evts[m] == key;
        assert(m < evts.len() - 1);
        assert(pre[m] == key);
        lemma_reg_all_one(f, pre, e, key);
        match field_lookup(g, evt) {
            None => lemma_obj_set_other(g, evt, Json::Array(seq![e]), key),
            Some(Json::Array(a)) => lemma_obj_set_other(g, evt, Json::Array(upsert(a, e)), key),
            Some(_) => {},
        }
    }
}

/// Law: after `register_in`, every hook event holds exactly one monitor
/// entry, the one for `url` and `token`, provided the event held at most
/// one before (the old one is replaced in place, else the new one is
/// appended).
pub proof fn law_register_one_monitor_entry(s: Json, url: Seq<char>, token: Seq<char>, evt: Seq<char>)
    requires
        register_spec(s, url, token) is Ok,
        hook_events().contains(evt),
        field_lookup(hooks_fields(s), evt) matches Some(Json::Array(a)) ==> at_most_one_tagged(a),
    ensures
        field_lookup(hooks_fields(register_spec(s, url, token)->Ok_0), evt) matches Some(Json::Array(b))
            && one_monitor_entry(b, monitor_entry(url, token)),
{
    let e = monitor_entry(url, token);
    lemma_monitor_entry_posts(url, token);
    lemma_hook_events_distinct();
    let root = s->Object_0;
    let h = match field_lookup(root, "hooks"@) {
        Some(Json::Object(h)) => h,
        _ => Seq::<(Seq<char>, Json)>::empty(),
    };
    assert(hooks_fields(s) == h);
    let h2 = reg_all(h, hook_events(), e)->Ok_0;
    lemma_obj_set_lookup(root, "hooks"@, Json::Object(h2));
    assert(hooks_fields(register_spec(s, url, token)->Ok_0) == h2);
    lemma_reg_all_one(h, hook_events(), e, evt);
}


/// `a` has no monitor entry.
pub open spec fn all_untagged(a: Seq<Json>) -> bool {
    forall|t: int| 0 <= t < a.len() ==> !is_tagged(#[trigger] a[t])
}

/// A member of a clean `hooks` object: a non-empty array without monitor
/// entries.
pub open spec fn clean_member(m: (Seq<char>, Json)) -> bool {
    match m.1 {
        Json::Array(a) => a.len() > 0 && all_untagged(a),
        _ => false,
    }
}

/// Member `gm` is member `hm` after registration: the same key, and an
/// array that holds, apart from monitor entries, the array of `hm`, which
/// is non-empty.
pub open spec fn member_grown(gm: (Seq<char>, Json), hm: (Seq<char>, Json)) -> bool {
    gm.0 == hm.0 && match (gm.1, hm.1) {
        (Json::Array(b), Json::Array(a)) => untagged(b) == a && a.len() > 0,
        _ => false,
    }
}

/// A member added by registration: an array of monitor entries only.
pub open spec fn member_added(gm: (Seq<char>, Json)) -> bool {
    match gm.1 {
        Json::Array(b) => untagged(b).len() == 0,
        _ => false,
    }
}

/// Settings without monitor hooks, whose `hooks` (when present) is a
/// non-empty object of non-empty arrays.
pub open spec fn clean_settings(s: Json) -> bool {
    s is Object && match field_lookup(s->Object_0, "hooks"@) {
        None => true,
        Some(Json::Object(h)) => h.len() > 0 && forall|i: int| 0 <= i < h.len() ==> clean_member(#[trigger] h[i]),
        Some(_) => false,
    }
}

/// `g` is the hooks object `h` after registration steps: its first members
/// are those of `h` with the same keys and, apart from monitor entries, the
/// same arrays; the members after them are arrays of monitor entries only.
pub open spec fn grown_from(h: Seq<(Seq<char>, Json)>, g: Seq<(Seq<char>, Json)>) -> bool {
    &&& g.len() >= h.len()
    &&& forall|i: int| 0 <= i < h.len() ==> member_grown(#[trigger] g[i], h[i])
    &&& forall|i: int| h.len() <= i < g.len() ==> member_added(#[trigger] g[i])
}

proof fn lemma_untagged_clean_same(a: Seq<Json>)
    requires
        all_untagged(a),
    ensures
        untagged(a) == a,
    decreases a.len(),
{
    if a.len() > 0 {
        assert(all_untagged(a.drop_last()));
        lemma_untagged_clean_same(a.drop_last());
        assert(!is_tagged(a[a.len() - 1]));
        assert(a.drop_last().push(a.last()) =~= a);
    }
}

proof fn lemma_strip_grown(h: Seq<(Seq<char>, Json)>, g: Seq<(Seq<char>, Json)>)
    requires
        grown_from(h, g),
    ensures
        strip_hooks(g) == h,
    decreases g.len(),
{
    if g.len() == 0 {
        assert(h =~= Seq::<(Seq<char>, Json)>::empty());
    } else {
        let gd = g.drop_last();
        let last = g.last();
        if g.len() > h.len() {
            assert(grown_from(h, gd)) by {
                assert forall|i: int| 0 <= i < h.len() implies member_grown(#[trigger] gd[i], h[i]) by {
                    assert(gd[i] == g[i]);
                }
                assert forall|i: int| h.len() <= i < gd.len() implies member_added(#[trigger] gd[i]) by {
                    assert(gd[i] == g[i]);
                }
            }
            lemma_strip_grown(h, gd);
            assert(g[g.len() - 1] == last);
        } else {
            let hd = h.drop_last();
            assert(grown_from(hd, gd)) by {
                assert forall|i: int| 0 <= i < hd.len() implies member_grown(#[trigger] gd[i], hd[i]) by {
                    assert(gd[i] == g[i]);
                    assert(hd[i] == h[i]);
                }
            }
            lemma_strip_grown(hd, gd);
            let k = h.len() - 1;
            assert(g[k] == last);
            assert(h.drop_last().push(h.last()) =~= h);
        }
    }
}

proof fn lemma_reg_one_grows(h: Seq<(Seq<char>, Json)>, g: Seq<(Seq<char>, Json)>, evt: Seq<char>, e: Json)
    requires
        grown_from(h, g),
        is_tagged(e),
    ensures
        reg_one(g, evt, e) is Ok,
        grown_from(h, reg_one(g, evt, e)->Ok_0),
{
    assert(untagged(seq![e]).len() == 0) by {
        let one = seq![e];
        assert(one.drop_last() =~= Seq::<Json>::empty());
        assert(one.last() == e);
        assert(untagged(Seq::<Json>::empty()) == Seq::<Json>::empty());
        assert(untagged(one) == untagged(one.drop_last()));
    }
    if exists|i: int| is_first_key(g, evt, i) {
        let i = choose|i: int| is_first_key(g, evt, i);
        lemma_first_key(g, evt, i);
        let b = g[i].1->Array_0;
        assert(g[i].1 == Json::Array(b)) by {
            if i < h.len() {
            } else {
            }
        }
        let g2 = g.update(i, (evt, Json::Array(upsert(b, e))));
        lemma_obj_set_at(g, evt, Json::Array(upsert(b, e)), i);
        lemma_untagged_upsert(b, e);
        assert(reg_one(g, evt, e)->Ok_0 == g2);
        assert forall|j: int| 0 <= j < h.len() implies member_grown(#[trigger] g2[j], h[j]) by {
            if j != i {
                assert(g2[j] == g[j]);
            } else {
                assert(g[i].0 == evt);
            }
        }
        assert forall|j: int| h.len() <= j < g2.len() implies member_added(#[trigger] g2[j]) by {
            if j != i {
                assert(g2[j] == g[j]);
            }
        }
    } else {
        lemma_lookup_none(g, evt);
        assert(field_lookup(g, evt) is None);
        let g2 = g.push((evt, Json::Array(seq![e])));
        assert(reg_one(g, evt, e)->Ok_0 == g2);
        assert forall|j: int| 0 <= j < h.len() implies member_grown(#[trigger] g2[j], h[j]) by {
            assert(g2[j] == g[j]);
        }
        assert forall|j: int| h.len() <= j < g2.len() implies member_added(#[trigger] g2[j]) by {
            if j < g.len() {
                assert(g2[j] == g[j]);
            }
        }
    }
}

proof fn lemma_reg_all_grows(h: Seq<(Seq<char>, Json)>, evts: Seq<Seq<char>>, e: Json)
    requires
        grown_from(h, h),
        is_tagged(e),
    ensures
        reg_all(h, evts, e) is Ok,
        grown_from(h, reg_all(h, evts, e)->Ok_0),
    decreases evts.len(),
{
    if evts.len() > 0 {
        lemma_reg_all_grows(h, evts.drop_last(), e);
        lemma_reg_one_grows(h, reg_all(h, evts.drop_last(), e)->Ok_0, evts.last(), e);
    }
}

proof fn lemma_remove_key_absent(f: Seq<(Seq<char>, Json)>, key: Seq<char>)
    requires
        forall|j: int| 0 <= j < f.len() ==> #[trigger] f[j].0 != key,
    ensures
        remove_key(f, key) == f,
    decreases f.len(),
{
    if f.len() > 0 {
        let d = f.drop_last();
        assert forall|j: int| 0 <= j < d.len() implies #[trigger] d[j].0 != key by {
            assert(d[j] == f[j]);
        }
        lemma_remove_key_absent(d, key);
        assert(f[f.len() - 1].0 != key);
        assert(d.push(f.last()) =~= f);
    }
}

/// Law: unregistering undoes registering. For settings without monitor
/// hooks whose `hooks`, when present, is a non-empty object of non-empty
/// arrays, `register_in` succeeds and `unregister_in` of its result gives
/// the settings back exactly: monitor entries are removed, arrays left
/// empty are dropped, and `hooks` is dropped once it is empty.
pub proof fn law_unregister_undoes_register(s: Json, url: Seq<char>, token: Seq<char>)
    requires
        clean_settings(s),
    ensures
        register_spec(s, url, token) is Ok,
        unregister_spec(register_spec(s, url, token)->Ok_0) == Some(s),
{
    let e = monitor_entry(url, token);
    lemma_monitor_entry_posts(url, token);
    let root = s->Object_0;
    let h = match field_lookup(root, "hooks"@) {
        Some(Json::Object(h)) => h,
        _ => Seq::<(Seq<char>, Json)>::empty(),
    };
    assert(grown_from(h, h)) by {
        assert forall|i: int| 0 <= i < h.len() implies member_grown(#[trigger] h[i], h[i]) by {
            let a = h[i].1->Array_0;
            lemma_untagged_clean_same(a);
        }
    }
    lemma_reg_all_grows(h, hook_events(), e);
    let h2 = reg_all(h, hook_events(), e)->Ok_0;
    lemma_strip_grown(h, h2);
    let root2 = obj_set(root, "hooks"@, Json::Object(h2));
    assert(register_spec(s, url, token) == Ok::<Json, Seq<char>>(Json::Object(root2)));
    lemma_obj_set_lookup(root, "hooks"@, Json::Object(h2));
    assert(field_lookup(root2, "hooks"@) == Some(Json::Object(h2)));
    match field_lookup(root, "hooks"@) {
        None => {
            lemma_lookup_none(root, "hooks"@);
            assert(h.len() == 0);
            assert(strip_hooks(h2).len() == 0);
            assert(root2 == root.push(("hooks"@, Json::Object(h2))));
            lemma_remove_key_absent(root, "hooks"@);
            assert(root2.drop_last() =~= root);
            assert(root2.last().0 == "hooks"@);
            assert(remove_key(root2, "hooks"@) == remove_key(root, "hooks"@));
            assert(unregister_spec(Json::Object(root2)) == Some(Json::Object(root)));
            assert(s == Json::Object(root));
        },
        Some(v) => {
            let i = choose|i: int| is_first_key(root, "hooks"@, i);
            lemma_first_key(root, "hooks"@, i);
            lemma_obj_set_at(root, "hooks"@, Json::Object(h2), i);
            assert(is_first_key(root2, "hooks"@, i));
            lemma_obj_set_at(root2, "hooks"@, Json::Object(h), i);
            assert(root2.update(i, ("hooks"@, Json::Object(h))) =~= root);
            assert(unregister_spec(Json::Object(root2)) == Some(Json::Object(root)));
            assert(s == Json::Object(root));
        },
    }
}

/// The value of header `name` on an HTTP hook: the string member `name` of
/// its `headers` object.
pub open spec fn hook_header(hook: Json, name: Seq<char>) -> Option<Seq<char>> {
    match json_get(hook, "headers"@) {
        Some(h) => json_str(json_get(h, name)),
        None => None,
    }
}

/// An entry whose hooks (at least one) are all HTTP hooks posting to `url`
/// with the header `X-Auth: token`, which the hook server accepts exactly
/// for its own token, and a timeout of 5 seconds.
pub open spec fn entry_authorized(e: Json, url: Seq<char>, token: Seq<char>) -> bool {
    match json_array(json_get(e, "hooks"@)) {
        Some(inner) => inner.len() > 0 && forall|j: int|
            0 <= j < inner.len() ==> {
                &&& json_str(json_get(#[trigger] inner[j], "type"@)) == Some("http"@)
                &&& json_str(json_get(inner[j], "url"@)) == Some(url)
                &&& hook_header(inner[j], "X-Auth"@) == Some(token)
                &&& json_u64(json_get(inner[j], "timeout"@)) == Some(5u64)
            },
        None => false,
    }
}

proof fn lemma_monitor_entry_authorized(url: Seq<char>, token: Seq<char>)
    ensures
        entry_authorized(monitor_entry(url, token), url, token),
{
    reveal_strlit("_claude_monitor");
    reveal_strlit("hooks");
    reveal_strlit("type");
    reveal_strlit("url");
    reveal_strlit("headers");
    reveal_strlit("X-Auth");
    let e = monitor_entry(url, token);
    let f = e->Object_0;
    assert("_claude_monitor"@.len() == 15 && "hooks"@.len() == 5);
    assert(f[0].0 != "hooks"@);
    assert(is_first_key(f, "hooks"@, 1));
    lemma_first_key(f, "hooks"@, 1);
    let inner = json_array(json_get(e, "hooks"@))->Some_0;
    assert(inner.len() == 1);
    let hk = inner[0];
    let hf = hk->Object_0;
    assert("type"@.len() == 4 && "url"@.len() == 3 && "headers"@.len() == 7);
    assert(is_first_key(hf, "type"@, 0));
    lemma_first_key(hf, "type"@, 0);
    assert(hf[0].0 != "url"@);
    assert(is_first_key(hf, "url"@, 1));
    lemma_first_key(hf, "url"@, 1);
    assert(hf[0].0 != "headers"@ && hf[1].0 != "headers"@);
    assert(is_first_key(hf, "headers"@, 2));
    lemma_first_key(hf, "headers"@, 2);
    let h = hf[2].1;
    assert(is_first_key(h->Object_0, "X-Auth"@, 0));
    lemma_first_key(h->Object_0, "X-Auth"@, 0);
    assert(hook_header(hk, "X-Auth"@) == Some(token));
    reveal_strlit("timeout");
    assert("timeout"@.len() == 7);
    assert(hf[2].0 != "timeout"@) by {
        assert("headers"@[0] != "timeout"@[0]);
    }
    assert(is_first_key(hf, "timeout"@, 3));
    lemma_first_key(hf, "timeout"@, 3);
}

/// Law: after `register_in` succeeds for `url` and `token`, every monitor
/// entry under every hook event is an HTTP hook posting to `url` with the
/// header `X-Auth: token` and a 5 s timeout, so each hook request it makes
/// carries the token the hook server checks (provided each event held at most one monitor
/// entry before, as every registration leaves it).
pub proof fn law_registered_hooks_carry_token(
    s: Json,
    url: Seq<char>,
    token: Seq<char>,
    evt: Seq<char>,
)
    requires
        register_spec(s, url, token) is Ok,
        hook_events().contains(evt),
        field_lookup(hooks_fields(s), evt) matches Some(Json::Array(a)) ==> at_most_one_tagged(a),
    ensures
        field_lookup(hooks_fields(register_spec(s, url, token)->Ok_0), evt) matches Some(
            Json::Array(b),
        ) && (exists|t: int| 0 <= t < b.len() && is_tagged(#[trigger] b[t])) && forall|t: int|
            0 <= t < b.len() && is_tagged(#[trigger] b[t]) ==> entry_authorized(b[t], url, token),
{
    law_register_one_monitor_entry(s, url, token, evt);
    lemma_monitor_entry_authorized(url, token);
    lemma_monitor_entry_posts(url, token);
}

} // verus!
