//! What the transcript watcher decides about the files under
//! the agent's projects directory: whose session a file is, which parent a sub-agent
//! belongs to, and which events the new lines of a file carry.

use vstd::prelude::*;
use crate::office::opt_view;
use crate::parser::{ClaudeEvent, event_views, line_events, parse_jsonl_line};
use crate::text::{
    blank, chars_of, ends_in_name, is_ascii_hex, is_blank, is_hex, owned, string_of, str_eq, three_deep,
    two_deep,
    utf8_encode,
};

verus! {

/// Lines longer than this (8 MiB) are skipped unread.
pub const MAX_LINE_BYTES: usize = 8388608;

/// 8-4-4-4-12 hexadecimal digits joined by dashes, either case.
pub open spec fn uuid_like(s: Seq<char>) -> bool {
    &&& s.len() == 36
    &&& forall|i: int|
        0 <= i < 36 ==> if i == 8 || i == 13 || i == 18 || i == 23 {
            #[trigger] s[i] == '-'
        } else {
            is_ascii_hex(s[i])
        }
}

/// Whether `s` is shaped like a UUID (see `uuid_like`). The version nibble
/// is not checked.
pub fn is_uuid_like(s: &str) -> (r: bool)
    ensures
        r == uuid_like(s@),
{
    let cs = chars_of(s);
    if cs.len() != 36 {
        return false;
    }
    let mut i: usize = 0;
    while i < 36
        invariant
            i <= 36,
            cs@ == s@,
            cs@.len() == 36,
            forall|j: int|
                0 <= j < i ==> if j == 8 || j == 13 || j == 18 || j == 23 {
                    #[trigger] s@[j] == '-'
                } else {
                    is_ascii_hex(s@[j])
                },
        decreases 36 - i,
    {
        let c = cs[i];
        if i == 8 || i == 13 || i == 18 || i == 23 {
            if c != '-' {
                return false;
            }
        } else if !is_hex(c) {
            return false;
        }
        i += 1;
    }
    true
}

/// The parent session of a transcript whose directory is named `dir` and
/// sits in a directory named `grand`: sub-agent transcripts live in
/// `<project>/<parent uuid>/subagents/`, and only a UUID-shaped parent is
/// accepted, so a file placed elsewhere cannot claim an arbitrary parent.
pub open spec fn parent_of(dir: Option<Seq<char>>, grand: Option<Seq<char>>) -> Option<Seq<char>> {
    match (dir, grand) {
        (Some(d), Some(g)) => if d == "subagents"@ && uuid_like(g) {
            Some(g)
        } else {
            None
        },
        _ => None,
    }
}

pub fn parent_from_dirs(dir: Option<&str>, grand: Option<&str>) -> (r: Option<String>)
    ensures
        match r {
            Some(p) => parent_of(opt_view(dir), opt_view(grand)) == Some(p@),
            None => parent_of(opt_view(dir), opt_view(grand)) is None,
        },
{
    match (dir, grand) {
        (Some(d), Some(g)) => {
            if str_eq(d, "subagents") && is_uuid_like(g) {
                Some(owned(g))
            } else {
                None
            }
        },
        _ => None,
    }
}

/// The directory holding `path` by `std::path::Path::parent`, as text;
/// `None` where there is none. For a plain lead, a plain directory name, a
/// `/` and a plain final name it is the path up to that directory name.
/// Paths of other shapes follow the platform's path rules and are not
/// stated.
#[verifier::external_body]
fn path_parent(path: &str) -> (r: Option<String>)
    ensures
        match r {
            Some(p) => forall|i: int, k: int| #[trigger] two_deep(path@, i, k) ==> p@ == path@.take(k),
            None => forall|i: int, k: int| !(#[trigger] two_deep(path@, i, k)),
        },
{
    std::path::Path::new(path).parent().and_then(|p| p.to_str()).map(String::from)
}

proof fn lemma_three_deep_parts(path: Seq<char>, i: int, j: int, k: int)
    requires
        three_deep(path, i, j, k),
    ensures
        two_deep(path, j, k),
        ends_in_name(path.take(k), j),
        two_deep(path.take(k), i, j),
        ends_in_name(path.take(j), i),
        path.take(k).skip(j + 1) == path.subrange(j + 1, k),
        path.take(j).skip(i + 1) == path.subrange(i + 1, j),
{
    let lead = path.take(i);
    let g = path.subrange(i + 1, j);
    let d = path.take(j);
    assert forall|x: int| 0 <= x < d.len() implies (#[trigger] d[x]) != '\\' && d[x] != ':' by {
        if x < i {
            assert(d[x] == lead[x]);
        } else if x > i {
            assert(d[x] == g[x - i - 1]);
        }
    }
    if d.len() > 0 && d[0] == '/' {
        if i == 0 {
            assert(d[1] == g[0]);
        } else {
            assert(d[0] == lead[0]);
            assert(d[1] == lead[1]);
        }
    }
    assert(path.take(k).take(j) =~= path.take(j));
    assert(path.take(k).skip(j + 1) =~= path.subrange(j + 1, k));
    assert(path.take(k).subrange(i + 1, j) =~= path.subrange(i + 1, j));
    assert(path.take(k).take(i) =~= path.take(i));
    assert(path.take(j).take(i) =~= path.take(i));
    assert(path.take(j).skip(i + 1) =~= path.subrange(i + 1, j));
}

/// The parent session of the transcript at `path`, if it is a sub-agent's;
/// whatever the path, a parent returned is UUID-shaped. For a path that is
/// a plain lead, a grandparent directory, a directory and a file name (see
/// `three_deep`), the result is `parent_of` those two directory names: the
/// grandparent when the directory is `subagents` and the grandparent is
/// UUID-shaped, else none.
pub fn detect_parent_id(path: &str) -> (r: Option<String>)
    ensures
        r matches Some(p) ==> uuid_like(p@),
        forall|i: int, j: int, k: int|
            #[trigger] three_deep(path@, i, j, k) ==> match r {
                Some(p) => parent_of(Some(path@.subrange(j + 1, k)), Some(path@.subrange(i + 1, j)))
                    == Some(p@),
                None => parent_of(Some(path@.subrange(j + 1, k)), Some(path@.subrange(i + 1, j))) is None,
            },
{
    let (dir, grand): (Option<String>, Option<String>) = match path_parent(path) {
        Some(p) => {
            let name = crate::snapshots::final_component(p.as_str());
            let above = match path_parent(p.as_str()) {
                Some(q) => {
                    let n = crate::snapshots::final_component(q.as_str());
                    proof {
                        assert forall|i: int, j: int, k: int| #[trigger] three_deep(path@, i, j, k) implies (n matches Some(g)
                            && g@ == path@.subrange(i + 1, j)) by {
                            lemma_three_deep_parts(path@, i, j, k);
                            assert(p@ == path@.take(k));
                            assert(two_deep(p@, i, j));
                            assert(q@ == p@.take(j));
                            assert(p@.take(j) =~= path@.take(j));
                            assert(ends_in_name(q@, i));
                        }
                    }
                    n
                },
                None => {
                    proof {
                        assert forall|i: int, j: int, k: int| !(#[trigger] three_deep(path@, i, j, k)) by {
                            if three_deep(path@, i, j, k) {
                                lemma_three_deep_parts(path@, i, j, k);
                                assert(p@ == path@.take(k));
                                assert(two_deep(p@, i, j));
                            }
                        }
                    }
                    None
                },
            };
            proof {
                assert forall|i: int, j: int, k: int| #[trigger] three_deep(path@, i, j, k) implies (name matches Some(d)
                    && d@ == path@.subrange(j + 1, k)) by {
                    lemma_three_deep_parts(path@, i, j, k);
                    assert(p@ == path@.take(k));
                    assert(ends_in_name(p@, j));
                }
            }
            (name, above)
        },
        None => {
            proof {
                assert forall|i: int, j: int, k: int| !(#[trigger] three_deep(path@, i, j, k)) by {
                    if three_deep(path@, i, j, k) {
                        lemma_three_deep_parts(path@, i, j, k);
                    }
                }
            }
            (None, None)
        },
    };
    proof {
        assert forall|i: int, j: int, k: int| #[trigger] three_deep(path@, i, j, k) implies {
            &&& dir matches Some(d) && d@ == path@.subrange(j + 1, k)
            &&& grand matches Some(g) && g@ == path@.subrange(i + 1, j)
        } by {}
    }
    let d = match &dir {
        Some(x) => Some(x.as_str()),
        None => None,
    };
    let g = match &grand {
        Some(x) => Some(x.as_str()),
        None => None,
    };
    parent_from_dirs(d, g)
}

/// The session id of a transcript from its file stem, "unknown" without one.
pub fn session_id_from_stem(stem: Option<&str>) -> (r: String)
    ensures
        r@ == match stem {
            Some(s) => s@,
            None => "unknown"@,
        },
{
    match stem {
        Some(s) => owned(s),
        None => owned("unknown"),
    }
}

/// What `std::str::from_utf8` makes of bytes: the text, or `None` where
/// they are not UTF-8.
pub uninterp spec fn utf8_decode(bytes: Seq<u8>) -> Option<Seq<char>>;

/// Decodes `bytes` with `std::str::from_utf8`, which succeeds exactly on
/// valid UTF-8: the result is the named decoding, the text the bytes
/// encode, and `None` exactly when no text encodes to them.
#[verifier::external_body]
fn decode_utf8(bytes: &[u8]) -> (r: Option<String>)
    ensures
        match r {
            Some(s) => utf8_decode(bytes@) == Some(s@) && utf8_encode(s@) == bytes@,
            None => utf8_decode(bytes@) is None && !(exists|s: Seq<char>| utf8_encode(s) == bytes@),
        },
{
    std::str::from_utf8(bytes).ok().map(String::from)
}

/// `s` without trailing `c`s (`str::trim_end_matches`).
pub open spec fn trim_end_char(s: Seq<char>, c: char) -> Seq<char>
    decreases s.len(),
{
    if s.len() > 0 && s.last() == c {
        trim_end_char(s.drop_last(), c)
    } else {
        s
    }
}

fn trim_end(cs: &Vec<char>, c: char) -> (r: Vec<char>)
    ensures
        r@ == trim_end_char(cs@, c),
{
    let mut k: usize = cs.len();
    assert(cs@.take(k as int) =~= cs@);
    while k > 0 && cs[k - 1] == c
        invariant
            k <= cs@.len(),
            trim_end_char(cs@, c) == trim_end_char(cs@.take(k as int), c),
        decreases k,
    {
        assert(cs@.take(k as int).drop_last() =~= cs@.take(k - 1));
        k -= 1;
    }
    crate::text::slice_chars(cs, 0, k)
}

/// The text of a transcript line read with its newline: trailing `\n`s and
/// then trailing `\r`s removed.
pub open spec fn line_text(s: Seq<char>) -> Seq<char> {
    trim_end_char(trim_end_char(s, '\n'), '\r')
}

/// The events of one raw line of a transcript: none for a line over the
/// size limit, one that is not UTF-8, or one that is blank; else what the
/// line parses to.
pub open spec fn raw_line_events(raw: Seq<u8>) -> Seq<crate::parser::EventView> {
    if raw.len() > MAX_LINE_BYTES {
        Seq::empty()
    } else {
        match utf8_decode(raw) {
            None => Seq::empty(),
            Some(s) => if blank(line_text(s)) {
                Seq::empty()
            } else {
                line_events(line_text(s))
            },
        }
    }
}

/// The events of one raw line of a transcript (see `raw_line_events`).
pub fn events_of_raw_line(raw: &[u8]) -> (r: Vec<ClaudeEvent>)
    ensures
        event_views(r@) == raw_line_events(raw@),
{
    if raw.len() > MAX_LINE_BYTES {
        let v: Vec<ClaudeEvent> = Vec::new();
        assert(event_views(v@) =~= Seq::<crate::parser::EventView>::empty());
        return v;
    }
    match decode_utf8(raw) {
        None => {
            let v: Vec<ClaudeEvent> = Vec::new();
            assert(event_views(v@) =~= Seq::<crate::parser::EventView>::empty());
            v
        },
        Some(s) => {
            let cs = chars_of(s.as_str());
            let t1 = trim_end(&cs, '\n');
            let t2 = trim_end(&t1, '\r');
            let line = string_of(&t2);
            if is_blank(line.as_str()) {
                let v: Vec<ClaudeEvent> = Vec::new();
                assert(event_views(v@) =~= Seq::<crate::parser::EventView>::empty());
                v
            } else {
                parse_jsonl_line(line.as_str())
            }
        },
    }
}

} // verus!
