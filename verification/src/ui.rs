//! Text shown by the monitor's window: dates and times, project labels,
//! short ids, and the avatar picked for each session.

use vstd::prelude::*;
use crate::status::LogSource;
use crate::text::{
    append_chars, append_str, char_utf8_len, chars_of, contains, contains_seq, decimal,
    decimal_chars, owned, push_str, slice_chars, str_eq, string_of, u64_to_string, utf8_bytes,
    utf8_encode, utf8_len, utf8_size,
};

verus! {

/// One line of an agent's event log, as the window receives it.
#[derive(Debug, PartialEq)]
pub struct LogEntry {
    pub session_id: String,
    /// RFC 3339.
    pub timestamp: String,
    pub source: LogSource,
    pub kind: String,
    pub summary: String,
    pub details: Option<String>,
}

// ---------------------------------------------------------------- seq helpers

/// Position of the first `c` in `s`, or -1.
pub open spec fn first_index(s: Seq<char>, c: char) -> int
    decreases s.len(),
{
    if s.len() == 0 {
        -1
    } else if s[0] == c {
        0
    } else {
        let r = first_index(s.drop_first(), c);
        if r < 0 {
            -1
        } else {
            r + 1
        }
    }
}

proof fn lemma_first_index(s: Seq<char>, c: char, i: int)
    requires
        0 <= i <= s.len(),
        forall|j: int| 0 <= j < i ==> s[j] != c,
        i == s.len() || s[i] == c,
    ensures
        first_index(s, c) == if i == s.len() {
            -1
        } else {
            i
        },
    decreases i,
{
    if i > 0 {
        lemma_first_index(s.drop_first(), c, i - 1);
    }
}

proof fn lemma_first_index_range(s: Seq<char>, c: char)
    ensures
        -1 <= first_index(s, c) < s.len(),
        first_index(s, c) >= 0 ==> s[first_index(s, c)] == c,
    decreases s.len(),
{
    if s.len() > 0 {
        lemma_first_index_range(s.drop_first(), c);
    }
}

/// `s` cut at every `c` (`str::split`).
pub open spec fn split_at_char(s: Seq<char>, c: char) -> Seq<Seq<char>>
    decreases s.len(),
{
    let i = first_index(s, c);
    if i < 0 || i >= s.len() {
        seq![s]
    } else {
        seq![s.take(i)] + split_at_char(s.skip(i + 1), c)
    }
}

proof fn lemma_split_nonempty(s: Seq<char>, c: char)
    ensures
        split_at_char(s, c).len() >= 1,
{
}

/// Position of `c` in `cs` (see `first_index`).
fn find_char(cs: &Vec<char>, c: char) -> (r: Option<usize>)
    ensures
        match r {
            Some(i) => i < cs@.len() && first_index(cs@, c) == i,
            None => first_index(cs@, c) == -1,
        },
{
    let mut i: usize = 0;
    while i < cs.len()
        invariant
            i <= cs.len(),
            forall|j: int| 0 <= j < i ==> cs@[j] != c,
        decreases cs.len() - i,
    {
        if cs[i] == c {
            proof {
                lemma_first_index(cs@, c, i as int);
            }
            return Some(i);
        }
        i += 1;
    }
    proof {
        lemma_first_index(cs@, c, cs@.len() as int);
    }
    None
}

/// The three pieces of `s` cut at `c`, when there are exactly three.
fn split3(s: &Vec<char>, c: char) -> (r: Option<(Vec<char>, Vec<char>, Vec<char>)>)
    ensures
        match r {
            Some((a, b, d)) => split_at_char(s@, c) == seq![a@, b@, d@],
            None => split_at_char(s@, c).len() != 3,
        },
{
    let i1 = match find_char(s, c) {
        Some(i) => i,
        None => {
            return None;
        },
    };
    assert(s@.len() == s.len());
    let a = slice_chars(s, 0, i1);
    let rest1 = slice_chars(s, i1 + 1, s.len());
    let ghost s1 = s@.skip(i1 + 1);
    assert(rest1@ =~= s1);
    let i2 = match find_char(&rest1, c) {
        Some(i) => i,
        None => {
            assert(split_at_char(s1, c) == seq![s1]);
            return None;
        },
    };
    assert(rest1@.len() == rest1.len());
    let b = slice_chars(&rest1, 0, i2);
    let rest2 = slice_chars(&rest1, i2 + 1, rest1.len());
    let ghost s2 = s1.skip(i2 + 1);
    assert(rest2@ =~= s2);
    match find_char(&rest2, c) {
        Some(i3) => {
            let ghost s3 = s2.skip(i3 + 1);
            proof {
                lemma_split_nonempty(s3, c);
                assert(split_at_char(s2, c) == seq![s2.take(i3 as int)] + split_at_char(s3, c));
                assert(split_at_char(s1, c) == seq![s1.take(i2 as int)] + split_at_char(s2, c));
                assert(split_at_char(s@, c) == seq![s@.take(i1 as int)] + split_at_char(s1, c));
                assert(split_at_char(s@, c).len() >= 4);
            }
            None
        },
        None => {
            proof {
                assert(split_at_char(s2, c) == seq![s2]);
                assert(split_at_char(s1, c) == seq![s1.take(i2 as int)] + split_at_char(s2, c));
                assert(split_at_char(s@, c) == seq![s@.take(i1 as int)] + split_at_char(s1, c));
                assert(a@ =~= s@.take(i1 as int));
                assert(b@ =~= s1.take(i2 as int));
                assert(split_at_char(s@, c) =~= seq![a@, b@, rest2@]);
            }
            Some((a, b, rest2))
        },
    }
}

/// The characters that end the time of an RFC 3339 timestamp.
pub open spec fn ends_time(c: char) -> bool {
    c == '.' || c == '+' || c == 'Z' || c == '-'
}

/// The longest prefix of `s` with no character that ends a time.
pub open spec fn time_prefix(s: Seq<char>) -> Seq<char>
    decreases s.len(),
{
    if s.len() == 0 || ends_time(s[0]) {
        Seq::empty()
    } else {
        seq![s[0]] + time_prefix(s.drop_first())
    }
}

proof fn lemma_time_prefix(s: Seq<char>, i: int)
    requires
        0 <= i <= s.len(),
        forall|j: int| 0 <= j < i ==> !ends_time(s[j]),
        i == s.len() || ends_time(s[i]),
    ensures
        time_prefix(s) == s.take(i),
    decreases i,
{
    if i > 0 {
        lemma_time_prefix(s.drop_first(), i - 1);
        assert(seq![s[0]] + s.drop_first().take(i - 1) =~= s.take(i));
    }
}

fn is_time_end(c: char) -> (r: bool)
    ensures
        r == ends_time(c),
{
    c == '.' || c == '+' || c == 'Z' || c == '-'
}

fn take_time(s: &Vec<char>) -> (r: Vec<char>)
    ensures
        r@ == time_prefix(s@),
{
    let mut i: usize = 0;
    while i < s.len() && !is_time_end(s[i])
        invariant
            i <= s.len(),
            forall|j: int| 0 <= j < i ==> !ends_time(s@[j]),
        decreases s.len() - i,
    {
        i += 1;
    }
    proof {
        lemma_time_prefix(s@, i as int);
    }
    slice_chars(s, 0, i)
}

/// The English abbreviation of a two-digit month.
pub open spec fn month_name(m: Seq<char>) -> Option<Seq<char>> {
    if m == "01"@ {
        Some("Jan"@)
    } else if m == "02"@ {
        Some("Feb"@)
    } else if m == "03"@ {
        Some("Mar"@)
    } else if m == "04"@ {
        Some("Apr"@)
    } else if m == "05"@ {
        Some("May"@)
    } else if m == "06"@ {
        Some("Jun"@)
    } else if m == "07"@ {
        Some("Jul"@)
    } else if m == "08"@ {
        Some("Aug"@)
    } else if m == "09"@ {
        Some("Sep"@)
    } else if m == "10"@ {
        Some("Oct"@)
    } else if m == "11"@ {
        Some("Nov"@)
    } else if m == "12"@ {
        Some("Dec"@)
    } else {
        None
    }
}

fn month_of(m: &Vec<char>) -> (r: Option<&'static str>)
    ensures
        match r {
            Some(n) => month_name(m@) == Some(n@),
            None => month_name(m@) is None,
        },
{
    let s = string_of(m);
    let t = s.as_str();
    if str_eq(t, "01") {
        Some("Jan")
    } else if str_eq(t, "02") {
        Some("Feb")
    } else if str_eq(t, "03") {
        Some("Mar")
    } else if str_eq(t, "04") {
        Some("Apr")
    } else if str_eq(t, "05") {
        Some("May")
    } else if str_eq(t, "06") {
        Some("Jun")
    } else if str_eq(t, "07") {
        Some("Jul")
    } else if str_eq(t, "08") {
        Some("Aug")
    } else if str_eq(t, "09") {
        Some("Sep")
    } else if str_eq(t, "10") {
        Some("Oct")
    } else if str_eq(t, "11") {
        Some("Nov")
    } else if str_eq(t, "12") {
        Some("Dec")
    } else {
        None
    }
}

// ---------------------------------------------------------------- dates

/// "DD MMM YYYY HH:MM:SS" for an RFC 3339 timestamp (the time dropped when
/// empty); the input itself when it has no `T`, its date part is not three
/// `-`-separated pieces, or the month is not `01`..`12`.
pub open spec fn datetime_text(s: Seq<char>) -> Seq<char> {
    let t = first_index(s, 'T');
    if t < 0 {
        s
    } else {
        let parts = split_at_char(s.take(t), '-');
        if parts.len() != 3 {
            s
        } else {
            match month_name(parts[1]) {
                None => s,
                Some(mn) => {
                    let time = time_prefix(s.skip(t + 1));
                    let base = parts[2] + " "@ + mn + " "@ + parts[0];
                    if time.len() == 0 {
                        base
                    } else {
                        base + " "@ + time
                    }
                },
            }
        }
    }
}

/// Formats an RFC 3339 timestamp as "DD MMM YYYY HH:MM:SS" (e.g.
/// "04 May 2026 14:22:34"); see `datetime_text`.
pub fn format_datetime(rfc3339: &str) -> (r: String)
    ensures
        r@ == datetime_text(rfc3339@),
{
    let s = chars_of(rfc3339);
    assert(s@.len() == s.len());
    let t = match find_char(&s, 'T') {
        Some(t) => t,
        None => {
            return owned(rfc3339);
        },
    };
    let date = slice_chars(&s, 0, t);
    let rest = slice_chars(&s, t + 1, s.len());
    assert(date@ =~= s@.take(t as int));
    assert(rest@ =~= s@.skip(t + 1));
    let (year, month, day) = match split3(&date, '-') {
        Some(p) => p,
        None => {
            return owned(rfc3339);
        },
    };
    let mn = match month_of(&month) {
        Some(m) => m,
        None => {
            return owned(rfc3339);
        },
    };
    let time = take_time(&rest);
    let mut out: Vec<char> = Vec::new();
    append_chars(&mut out, &day);
    append_str(&mut out, " ");
    append_str(&mut out, mn);
    append_str(&mut out, " ");
    append_chars(&mut out, &year);
    if time.len() > 0 {
        append_str(&mut out, " ");
        append_chars(&mut out, &time);
    }
    proof {
        assert(out@ =~= datetime_text(rfc3339@));
    }
    string_of(&out)
}

/// The `HH:MM:SS` of an RFC 3339 timestamp: what follows the first `T` up
/// to a fraction or zone; the input itself when it has no `T`.
pub open spec fn log_time_text(s: Seq<char>) -> Seq<char> {
    let t = first_index(s, 'T');
    if t < 0 {
        s
    } else {
        time_prefix(s.skip(t + 1))
    }
}

pub fn format_log_time(rfc3339: &str) -> (r: String)
    ensures
        r@ == log_time_text(rfc3339@),
{
    let s = chars_of(rfc3339);
    assert(s@.len() == s.len());
    match find_char(&s, 'T') {
        Some(t) => {
            let rest = slice_chars(&s, t + 1, s.len());
            assert(rest@ =~= s@.skip(t + 1));
            let time = take_time(&rest);
            string_of(&time)
        },
        None => owned(rfc3339),
    }
}

/// `year` holds a character boundary two bytes before its end (or is
/// shorter than two bytes), so that its last two bytes can be cut off.
pub open spec fn year_cut_ok(year: Seq<char>) -> bool {
    utf8_size(year) < 2 || exists|k: int|
        0 <= k <= year.len() && #[trigger] utf8_size(year.take(k)) + 2 == utf8_size(year)
}

/// The last two bytes of `year` as text (all of it when shorter).
pub open spec fn year_suffix(year: Seq<char>) -> Seq<char> {
    if utf8_size(year) < 2 {
        year
    } else {
        year.skip(choose|k: int| 0 <= k <= year.len() && utf8_size(year.take(k)) + 2 == utf8_size(year))
    }
}

/// "DD MMM YY" for a YYYY-MM-DD date; the input itself when it is not
/// three `-`-separated pieces, the year's last two bytes cannot be cut off
/// on a character boundary, or the month is not `01`..`12`.
pub open spec fn date_short_text(s: Seq<char>) -> Seq<char> {
    let parts = split_at_char(s, '-');
    if parts.len() != 3 {
        s
    } else if !year_cut_ok(parts[0]) {
        s
    } else {
        match month_name(parts[1]) {
            None => s,
            Some(mn) => parts[2] + " "@ + mn + " "@ + year_suffix(parts[0]),
        }
    }
}

proof fn lemma_utf8_size_take(s: Seq<char>, k: int)
    requires
        0 <= k < s.len(),
    ensures
        utf8_size(s.take(k + 1)) == utf8_size(s.take(k)) + utf8_len(s[k]),
{
    assert(s.take(k + 1).drop_last() =~= s.take(k));
}

proof fn lemma_utf8_size_mono(s: Seq<char>, a: int, b: int)
    requires
        0 <= a <= b <= s.len(),
    ensures
        utf8_size(s.take(a)) + (b - a) <= utf8_size(s.take(b)),
    decreases b - a,
{
    if a < b {
        lemma_utf8_size_mono(s, a, b - 1);
        lemma_utf8_size_take(s, b - 1);
    }
}

/// The position `k` of `cs` whose prefix takes `target` bytes, if any.
fn byte_boundary(cs: &Vec<char>, target: u128) -> (r: Option<usize>)
    ensures
        match r {
            Some(k) => k <= cs@.len() && utf8_size(cs@.take(k as int)) == target,
            None => forall|k: int| 0 <= k <= cs@.len() ==> utf8_size(#[trigger] cs@.take(k)) != target,
        },
{
    let mut k: usize = 0;
    let mut size: u128 = 0;
    assert(cs@.take(0) =~= Seq::<char>::empty());
    while k < cs.len()
        invariant
            k <= cs.len(),
            size == utf8_size(cs@.take(k as int)),
            size <= target,
            forall|j: int| 0 <= j < k ==> utf8_size(#[trigger] cs@.take(j)) < target,
        decreases cs.len() - k,
    {
        if size == target {
            return Some(k);
        }
        proof {
            lemma_utf8_size_take(cs@, k as int);
        }
        let n = char_utf8_len(cs[k]) as u128;
        if n > target - size {
            proof {
                assert forall|j: int| 0 <= j <= cs@.len() implies utf8_size(#[trigger] cs@.take(j)) != target by {
                    if j > k {
                        lemma_utf8_size_mono(cs@, k + 1, j);
                    }
                }
            }
            return None;
        }
        size = size + n;
        k += 1;
    }
    if size == target {
        return Some(k);
    }
    None
}

/// Formats a YYYY-MM-DD date as "DD MMM YY" (e.g. "04 May 26"), or gives
/// the input back when it cannot; see `date_short_text`.
pub fn format_date_short(yyyy_mm_dd: &str) -> (r: String)
    ensures
        r@ == date_short_text(yyyy_mm_dd@),
{
    let s = chars_of(yyyy_mm_dd);
    let (year, month, day) = match split3(&s, '-') {
        Some(p) => p,
        None => {
            return owned(yyyy_mm_dd);
        },
    };
    let ylen = utf8_bytes_len(&year);
    let yy = if ylen < 2 {
        slice_chars(&year, 0, year.len())
    } else {
        match byte_boundary(&year, ylen - 2) {
            Some(k) => {
                proof {
                    let y = year@;
                    let kk = choose|k: int| 0 <= k <= y.len() && utf8_size(y.take(k)) + 2 == utf8_size(y);
                    assert(utf8_size(y.take(k as int)) + 2 == utf8_size(y));
                    if kk != k {
                        if kk < k {
                            lemma_utf8_size_mono(y, kk, k as int);
                        } else {
                            lemma_utf8_size_mono(y, k as int, kk);
                        }
                    }
                }
                slice_chars(&year, k, year.len())
            },
            None => {
                proof {
                    let y = year@;
                    assert(!year_cut_ok(y)) by {
                        if exists|k: int| 0 <= k <= y.len() && #[trigger] utf8_size(y.take(k)) + 2 == utf8_size(y) {
                            let kk = choose|k: int| 0 <= k <= y.len() && #[trigger] utf8_size(y.take(k)) + 2 == utf8_size(y);
                            assert(utf8_size(y.take(kk)) != ylen - 2);
                        }
                    }
                }
                return owned(yyyy_mm_dd);
            },
        }
    };
    assert(year@.take(year@.len() as int) =~= year@);
    let mn = match month_of(&month) {
        Some(m) => m,
        None => {
            return owned(yyyy_mm_dd);
        },
    };
    let mut out: Vec<char> = Vec::new();
    append_chars(&mut out, &day);
    append_str(&mut out, " ");
    append_str(&mut out, mn);
    append_str(&mut out, " ");
    append_chars(&mut out, &yy);
    proof {
        assert(yy@ == year_suffix(year@));
        assert(out@ =~= date_short_text(yyyy_mm_dd@));
    }
    string_of(&out)
}

/// Bytes taken by `cs` in UTF-8.
fn utf8_bytes_len(cs: &Vec<char>) -> (r: u128)
    ensures
        r == utf8_size(cs@),
{
    let mut k: usize = 0;
    let mut size: u128 = 0;
    assert(cs@.take(0) =~= Seq::<char>::empty());
    while k < cs.len()
        invariant
            k <= cs.len(),
            size == utf8_size(cs@.take(k as int)),
            size <= 4 * k,
        decreases cs.len() - k,
    {
        proof {
            lemma_utf8_size_take(cs@, k as int);
        }
        size = size + char_utf8_len(cs[k]) as u128;
        k += 1;
    }
    assert(cs@.take(cs@.len() as int) =~= cs@);
    size
}


// ---------------------------------------------------------------- labels

pub open spec fn is_sep(c: char) -> bool {
    c == '/' || c == '\\'
}

/// `s` without its trailing path separators.
pub open spec fn trim_seps(s: Seq<char>) -> Seq<char>
    decreases s.len(),
{
    if s.len() > 0 && is_sep(s.last()) {
        trim_seps(s.drop_last())
    } else {
        s
    }
}

/// Position of the last path separator of `s`, or -1.
pub open spec fn last_sep(s: Seq<char>) -> int
    decreases s.len(),
{
    if s.len() == 0 {
        -1
    } else if is_sep(s.last()) {
        s.len() - 1
    } else {
        last_sep(s.drop_last())
    }
}

/// The label of a project directory: its last path component, trailing
/// separators (`/` or `\`) ignored; "(unknown project)" for an empty path.
pub open spec fn project_text(path: Seq<char>) -> Seq<char> {
    if path.len() == 0 {
        "(unknown project)"@
    } else {
        let t = trim_seps(path);
        let seg = t.skip(last_sep(t) + 1);
        if seg.len() == 0 {
            t
        } else {
            seg
        }
    }
}

fn is_sep_char(c: char) -> (r: bool)
    ensures
        r == is_sep(c),
{
    c == '/' || c == '\\'
}

pub fn project_label(path: &str) -> (r: String)
    ensures
        r@ == project_text(path@),
{
    let s = chars_of(path);
    if s.len() == 0 {
        return owned("(unknown project)");
    }
    let mut k: usize = s.len();
    assert(s@.take(k as int) =~= s@);
    while k > 0 && is_sep_char(s[k - 1])
        invariant
            k <= s@.len(),
            trim_seps(s@) == trim_seps(s@.take(k as int)),
        decreases k,
    {
        assert(s@.take(k as int).drop_last() =~= s@.take(k - 1));
        k -= 1;
    }
    let t = slice_chars(&s, 0, k);
    assert(t@ =~= s@.take(k as int));
    let mut j: usize = k;
    assert(t@.take(j as int) =~= t@);
    while j > 0 && !is_sep_char(t[j - 1])
        invariant
            j <= k,
            k == t@.len(),
            last_sep(t@) == last_sep(t@.take(j as int)),
        decreases j,
    {
        assert(t@.take(j as int).drop_last() =~= t@.take(j - 1));
        j -= 1;
    }
    if j > 0 {
        assert(t@.take(j as int).last() == t@[j - 1]);
    }
    let seg = slice_chars(&t, j, k);
    assert(seg@ =~= t@.skip(last_sep(t@) + 1));
    if seg.len() == 0 {
        string_of(&t)
    } else {
        string_of(&seg)
    }
}

/// `id` can be cut after its first 8 bytes: it is at most 8 bytes long, or
/// a character ends exactly there.
pub open spec fn short_id_ok(id: Seq<char>) -> bool {
    utf8_size(id) <= 8 || exists|k: int| 0 <= k <= id.len() && #[trigger] utf8_size(id.take(k)) == 8
}

/// The first 8 bytes of `id` as text (all of it when shorter).
pub open spec fn short_id_text(id: Seq<char>) -> Seq<char> {
    if utf8_size(id) <= 8 {
        id
    } else {
        id.take(choose|k: int| 0 <= k <= id.len() && utf8_size(id.take(k)) == 8)
    }
}

/// The first 8 bytes of a session id, for compact display.
pub fn short_id(id: &str) -> (r: String)
    requires
        short_id_ok(id@),
    ensures
        r@ == short_id_text(id@),
{
    let cs = chars_of(id);
    let total = utf8_bytes_len(&cs);
    if total <= 8 {
        return owned(id);
    }
    match byte_boundary(&cs, 8) {
        Some(k) => {
            proof {
                let kk = choose|k: int| 0 <= k <= id@.len() && utf8_size(id@.take(k)) == 8;
                if kk < k {
                    lemma_utf8_size_mono(id@, kk, k as int);
                } else if k < kk {
                    lemma_utf8_size_mono(id@, k as int, kk);
                }
            }
            let p = slice_chars(&cs, 0, k);
            assert(p@ =~= id@.take(k as int));
            string_of(&p)
        },
        None => {
            proof {
                let kk = choose|k: int| 0 <= k <= id@.len() && #[trigger] utf8_size(id@.take(k)) == 8;
                assert(utf8_size(id@.take(kk)) != 8);
            }
            owned(id)
        },
    }
}

// ---------------------------------------------------------------- avatars

/// The avatar sprites, in the order they are picked from.
pub open spec fn avatars() -> Seq<Seq<char>> {
    seq![
        "01_monitor_bot"@,
        "02_teardrop_bot"@,
        "03_turtle_bot"@,
        "04_round_bot"@,
        "05_cat_bot"@,
        "06_fox_bot"@,
        "07_red_probe_bot"@,
        "08_owl_bot"@,
    ]
}

fn avatar(i: u32) -> (r: &'static str)
    requires
        i < 8,
    ensures
        r@ == avatars()[i as int],
{
    match i {
        0 => "01_monitor_bot",
        1 => "02_teardrop_bot",
        2 => "03_turtle_bot",
        3 => "04_round_bot",
        4 => "05_cat_bot",
        5 => "06_fox_bot",
        6 => "07_red_probe_bot",
        _ => "08_owl_bot",
    }
}

/// 32-bit FNV-1a hash of `b`.
pub open spec fn fnv1a(b: Seq<u8>) -> u32
    decreases b.len(),
{
    if b.len() == 0 {
        0x811c9dc5u32
    } else {
        vstd::wrapping::u32_specs::wrapping_mul(fnv1a(b.drop_last()) ^ (b.last() as u32), 0x01000193u32)
    }
}

/// The sprite of a session: the FNV-1a hash of its id's UTF-8 bytes picks
/// one of the eight, so the same session always gets the same one.
pub fn avatar_for(id: &str) -> (r: &'static str)
    ensures
        r@ == avatars()[(fnv1a(utf8_encode(id@)) % 8) as int],
{
    let bytes = utf8_bytes(id);
    let mut h: u32 = 0x811c9dc5;
    let mut i: usize = 0;
    assert(bytes@.take(0) =~= Seq::<u8>::empty());
    while i < bytes.len()
        invariant
            i <= bytes.len(),
            h == fnv1a(bytes@.take(i as int)),
        decreases bytes.len() - i,
    {
        assert(bytes@.take(i + 1).drop_last() =~= bytes@.take(i as int));
        h = h ^ (bytes[i] as u32);
        h = h.wrapping_mul(0x0100_0193);
        i += 1;
    }
    assert(bytes@.take(bytes.len() as int) =~= bytes@);
    avatar(h % 8)
}

/// Path of an avatar PNG at a pixel size.
pub fn avatar_url(name: &str, size: u32) -> (r: String)
    ensures
        r@ == "/avatars/"@ + name@ + "/"@ + name@ + "_"@ + decimal(size as nat) + ".png"@,
{
    let mut out = owned("/avatars/");
    push_str(&mut out, name);
    push_str(&mut out, "/");
    push_str(&mut out, name);
    push_str(&mut out, "_");
    let n = u64_to_string(size as u64);
    push_str(&mut out, n.as_str());
    push_str(&mut out, ".png");
    out
}


// ---------------------------------------------------------------- numbers

/// `digits` with a comma between each group of three, counted from the
/// right ("1234567" reads "1,234,567").
pub open spec fn grouped(digits: Seq<char>) -> Seq<char>
    decreases digits.len(),
{
    if digits.len() <= 3 {
        digits
    } else {
        grouped(digits.take(digits.len() - 3)) + seq![','] + digits.skip(digits.len() - 3)
    }
}

/// `grouped` of the first `end` characters of `cs`.
fn grouped_prefix(cs: &Vec<char>, end: usize) -> (r: Vec<char>)
    requires
        end <= cs.len(),
    ensures
        r@ == grouped(cs@.take(end as int)),
    decreases end,
{
    if end <= 3 {
        return slice_chars(cs, 0, end);
    }
    let mut out = grouped_prefix(cs, end - 3);
    out.push(',');
    let tail = slice_chars(cs, end - 3, end);
    let ghost before = out@;
    append_chars(&mut out, &tail);
    proof {
        let t = cs@.take(end as int);
        assert(t.take(t.len() - 3) =~= cs@.take(end - 3));
        assert(t.skip(t.len() - 3) =~= cs@.subrange(end - 3, end as int));
        assert(out@ =~= grouped(t));
    }
    out
}

/// `text` with commas between groups of three characters, counted from the
/// right; used on the integer part of a number.
pub fn group_thousands(text: &str) -> (r: String)
    ensures
        r@ == grouped(text@),
{
    let cs = chars_of(text);
    let out = grouped_prefix(&cs, cs.len());
    assert(cs@.take(cs.len() as int) =~= cs@);
    string_of(&out)
}

/// `n` in decimal with thousands separators ("1,234,567").
pub fn format_num(n: u64) -> (r: String)
    ensures
        r@ == grouped(decimal(n as nat)),
{
    let ds = decimal_chars(n);
    let out = grouped_prefix(&ds, ds.len());
    assert(ds@.take(ds.len() as int) =~= ds@);
    string_of(&out)
}

/// `s` up to its first `c` (all of `s` when there is none): the first
/// piece of `str::split`.
pub open spec fn before_char(s: Seq<char>, c: char) -> Seq<char> {
    split_at_char(s, c)[0]
}

/// The family name shown for a model id: "-" for none, the family when the
/// id names opus, sonnet or haiku, else the id up to its first dash.
pub open spec fn model_short_text(m: Seq<char>) -> Seq<char> {
    if m.len() == 0 {
        "-"@
    } else if contains_seq(m, "opus"@) {
        "opus"@
    } else if contains_seq(m, "sonnet"@) {
        "sonnet"@
    } else if contains_seq(m, "haiku"@) {
        "haiku"@
    } else {
        before_char(m, '-')
    }
}

/// Short family label of a model id, for the agent tiles.
pub fn model_short(m: &str) -> (r: String)
    ensures
        r@ == model_short_text(m@),
{
    let cs = chars_of(m);
    if cs.len() == 0 {
        return owned("-");
    }
    let opus = chars_of("opus");
    if contains(&cs, &opus) {
        return owned("opus");
    }
    let sonnet = chars_of("sonnet");
    if contains(&cs, &sonnet) {
        return owned("sonnet");
    }
    let haiku = chars_of("haiku");
    if contains(&cs, &haiku) {
        return owned("haiku");
    }
    match find_char(&cs, '-') {
        Some(i) => {
            let p = slice_chars(&cs, 0, i);
            proof {
                lemma_first_index_range(cs@, '-');
                assert(p@ =~= cs@.take(i as int));
            }
            string_of(&p)
        },
        None => owned(m),
    }
}


/// Entries kept per session in the window's live event log.
pub const LOG_RING_CAP: usize = 500;

/// The last `cap` entries of `s` (all of them when there are fewer).
pub open spec fn keep_last<T>(s: Seq<T>, cap: nat) -> Seq<T> {
    if s.len() <= cap {
        s
    } else {
        s.skip(s.len() - cap)
    }
}

/// Appends `x` to a session's event log and drops the oldest entries
/// beyond `cap`.
pub fn push_capped<T>(log: &mut Vec<T>, x: T, cap: usize)
    ensures
        final(log)@ == keep_last(old(log)@.push(x), cap as nat),
{
    let ghost full = log@.push(x);
    log.push(x);
    let mut dropped: usize = 0;
    let n = log.len();
    assert(full.skip(0) =~= full);
    while log.len() > cap
        invariant
            full.len() == n,
            full.len() == dropped + log@.len(),
            log@ == full.skip(dropped as int),
            dropped > 0 ==> log@.len() >= cap,
        decreases log.len(),
    {
        log.remove(0);
        dropped += 1;
        assert(log@ =~= full.skip(dropped as int));
    }
}


/// A session's event log after appending `xs` in order, one `push_capped`
/// at a time, to `log`.
pub open spec fn appended_capped<T>(log: Seq<T>, xs: Seq<T>, cap: nat) -> Seq<T>
    decreases xs.len(),
{
    if xs.len() == 0 {
        log
    } else {
        keep_last(appended_capped(log, xs.drop_last(), cap).push(xs.last()), cap)
    }
}

proof fn lemma_keep_last_push<T>(s: Seq<T>, x: T, cap: nat)
    ensures
        keep_last(keep_last(s, cap).push(x), cap) == keep_last(s.push(x), cap),
{
    let k = keep_last(s, cap);
    if s.len() > cap {
        assert(k.len() == cap);
        if cap > 0 {
            assert(k.push(x).skip(1) =~= s.push(x).skip(s.len() + 1 - cap));
        } else {
            assert(k.push(x).skip(1) =~= Seq::<T>::empty());
            assert(s.push(x).skip((s.len() + 1) as int) =~= Seq::<T>::empty());
        }
    }
}

/// Law: a run of appends keeps the last `cap` entries in arrival order.
/// Starting from a log of at most `cap` entries, appending `xs` one by one
/// with `push_capped` leaves the last `cap` entries of the log followed by
/// `xs` (all of them when there are fewer).
pub proof fn law_log_keeps_latest<T>(log: Seq<T>, xs: Seq<T>, cap: nat)
    requires
        log.len() <= cap,
    ensures
        appended_capped(log, xs, cap) == keep_last(log + xs, cap),
    decreases xs.len(),
{
    if xs.len() == 0 {
        assert(log + xs =~= log);
    } else {
        law_log_keeps_latest(log, xs.drop_last(), cap);
        lemma_keep_last_push(log + xs.drop_last(), xs.last(), cap);
        assert((log + xs.drop_last()).push(xs.last()) =~= log + xs);
    }
}


/// How the window names an agent: its project label, or the short form of
/// its session id when it has no project.
pub open spec fn agent_label_text(project: Seq<char>, session_id: Seq<char>) -> Seq<char> {
    if project.len() == 0 {
        short_id_text(session_id)
    } else {
        project_text(project)
    }
}

/// The name of an agent in a notification (see `agent_label_text`).
pub fn agent_label(project: &str, session_id: &str) -> (r: String)
    requires
        project@.len() > 0 || short_id_ok(session_id@),
    ensures
        r@ == agent_label_text(project@, session_id@),
{
    if project.is_empty() {
        short_id(session_id)
    } else {
        project_label(project)
    }
}

/// The toast shown when an agent starts waiting for permission.
pub fn waiting_toast(project: &str, session_id: &str) -> (r: String)
    requires
        project@.len() > 0 || short_id_ok(session_id@),
    ensures
        r@ == "\u{23f3} "@ + agent_label_text(project@, session_id@) + " is waiting"@,
{
    let mut out = owned("\u{23f3} ");
    let label = agent_label(project, session_id);
    push_str(&mut out, label.as_str());
    push_str(&mut out, " is waiting");
    out
}

} // verus!
