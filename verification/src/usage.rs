//! How shell commands are grouped in the usage breakdown: by the program
//! they run.

use vstd::prelude::*;
use crate::text::{chars_of, is_alnum, is_ascii_alnum, is_space, is_white_space, slice_chars, string_of};

verus! {

/// The first whitespace-separated word of `s` (empty when there is none).
pub open spec fn first_word(s: Seq<char>) -> Seq<char>
    decreases s.len(),
{
    if s.len() == 0 {
        s
    } else if is_white_space(s[0]) {
        first_word(s.drop_first())
    } else {
        word_prefix(s)
    }
}

/// The longest prefix of `s` without white space.
pub open spec fn word_prefix(s: Seq<char>) -> Seq<char>
    decreases s.len(),
{
    if s.len() == 0 || is_white_space(s[0]) {
        Seq::empty()
    } else {
        seq![s[0]] + word_prefix(s.drop_first())
    }
}

/// Characters kept at the ends of a program name.
pub open spec fn name_char(c: char) -> bool {
    is_ascii_alnum(c) || c == '-' || c == '_' || c == '.'
}

/// `s` without the characters that cannot end a program name at either
/// end (`str::trim_matches`).
pub open spec fn trim_name(s: Seq<char>) -> Seq<char>
    decreases s.len(),
{
    if s.len() == 0 {
        s
    } else if !name_char(s[0]) {
        trim_name(s.drop_first())
    } else if !name_char(s.last()) {
        trim_name(s.drop_last())
    } else {
        s
    }
}

/// The bucket of a shell command: its first word with stray punctuation
/// trimmed (e.g. "git status -s" goes to "git"); empty for a command that
/// has none, which is left out of the breakdown.
pub open spec fn shell_bucket(cmd: Seq<char>) -> Seq<char> {
    trim_name(first_word(cmd))
}

proof fn lemma_word_prefix(s: Seq<char>, j: int)
    requires
        0 <= j <= s.len(),
        forall|k: int| 0 <= k < j ==> !is_white_space(#[trigger] s[k]),
        j == s.len() || is_white_space(s[j]),
    ensures
        word_prefix(s) == s.take(j),
    decreases j,
{
    if j > 0 {
        lemma_word_prefix(s.drop_first(), j - 1);
        assert(seq![s[0]] + s.drop_first().take(j - 1) =~= s.take(j));
    }
}

proof fn lemma_first_word(s: Seq<char>, i: int)
    requires
        0 <= i <= s.len(),
        forall|k: int| 0 <= k < i ==> is_white_space(#[trigger] s[k]),
    ensures
        first_word(s) == first_word(s.skip(i)),
    decreases i,
{
    if i > 0 {
        assert(is_white_space(s[0]));
        assert forall|k: int| 0 <= k < i - 1 implies is_white_space(#[trigger] s.drop_first()[k]) by {
            assert(s.drop_first()[k] == s[k + 1]);
        }
        lemma_first_word(s.drop_first(), i - 1);
        assert(s.drop_first().skip(i - 1) =~= s.skip(i));
    } else {
        assert(s.skip(0) =~= s);
    }
}

fn is_name_char(c: char) -> (r: bool)
    ensures
        r == name_char(c),
{
    is_alnum(c) || c == '-' || c == '_' || c == '.'
}

/// The bucket of a shell command (see `shell_bucket`).
pub fn shell_head(cmd: &str) -> (r: String)
    ensures
        r@ == shell_bucket(cmd@),
{
    let s = chars_of(cmd);
    let mut i: usize = 0;
    while i < s.len() && is_space(s[i])
        invariant
            i <= s@.len(),
            forall|k: int| 0 <= k < i ==> is_white_space(#[trigger] s@[k]),
        decreases s.len() - i,
    {
        i += 1;
    }
    proof {
        lemma_first_word(s@, i as int);
    }
    let mut j: usize = i;
    while j < s.len() && !is_space(s[j])
        invariant
            i <= j <= s@.len(),
            forall|k: int| i <= k < j ==> !is_white_space(#[trigger] s@[k]),
        decreases s.len() - j,
    {
        j += 1;
    }
    let ghost rest = s@.skip(i as int);
    proof {
        if i < s@.len() {
            assert(!is_white_space(rest[0]));
            lemma_word_prefix(rest, j - i);
            assert(first_word(rest) == word_prefix(rest));
        } else {
            assert(rest.len() == 0);
        }
        assert(rest.take(j - i) =~= s@.subrange(i as int, j as int));
    }
    // The word is s[i..j]; trim stray characters from both ends.
    let mut a: usize = i;
    let mut b: usize = j;
    let ghost word = s@.subrange(i as int, j as int);
    assert(word =~= s@.subrange(a as int, b as int));
    while a < b && (!is_name_char(s[a]) || !is_name_char(s[b - 1]))
        invariant
            i <= a <= b <= j,
            j <= s@.len(),
            trim_name(word) == trim_name(s@.subrange(a as int, b as int)),
        decreases b - a,
    {
        let ghost cur = s@.subrange(a as int, b as int);
        if !is_name_char(s[a]) {
            assert(cur.drop_first() =~= s@.subrange(a + 1, b as int));
            a += 1;
        } else {
            assert(cur.drop_last() =~= s@.subrange(a as int, b - 1));
            b -= 1;
        }
    }
    let out = slice_chars(&s, a, b);
    string_of(&out)
}


// ---------------------------------------------------------------- buckets

pub open spec fn cmd_views(cmds: Seq<String>) -> Seq<Seq<char>> {
    cmds.map_values(|c: String| c@)
}

pub open spec fn row_views(rows: Seq<(String, u64)>) -> Seq<(Seq<char>, u64)> {
    rows.map_values(|r: (String, u64)| (r.0@, r.1))
}

/// How many of `cmds` fall in bucket `key`.
pub open spec fn bucket_count(cmds: Seq<Seq<char>>, key: Seq<char>) -> nat
    decreases cmds.len(),
{
    if cmds.len() == 0 {
        0
    } else {
        bucket_count(cmds.drop_last(), key) + if shell_bucket(cmds.last()) == key {
            1nat
        } else {
            0nat
        }
    }
}

/// `rows` is the bucket table of `cmds`: one row per non-empty bucket that
/// some command falls in, with the number of commands in it.
pub open spec fn is_bucket_table(rows: Seq<(Seq<char>, u64)>, cmds: Seq<Seq<char>>) -> bool {
    &&& forall|i: int, j: int| 0 <= i < j < rows.len() ==> #[trigger] rows[i].0 != #[trigger] rows[j].0
    &&& forall|i: int|
        0 <= i < rows.len() ==> (#[trigger] rows[i]).0.len() > 0 && rows[i].1 == bucket_count(
            cmds,
            rows[i].0,
        )
    &&& forall|i: int|
        0 <= i < cmds.len() && shell_bucket(#[trigger] cmds[i]).len() > 0 ==> exists|j: int|
            0 <= j < rows.len() && rows[j].0 == shell_bucket(cmds[i])
}

proof fn lemma_bucket_count_bound(cmds: Seq<Seq<char>>, key: Seq<char>)
    ensures
        bucket_count(cmds, key) <= cmds.len(),
    decreases cmds.len(),
{
    if cmds.len() > 0 {
        lemma_bucket_count_bound(cmds.drop_last(), key);
    }
}

proof fn lemma_bucket_count_zero(cmds: Seq<Seq<char>>, key: Seq<char>)
    requires
        forall|i: int| 0 <= i < cmds.len() ==> shell_bucket(#[trigger] cmds[i]) != key,
    ensures
        bucket_count(cmds, key) == 0,
    decreases cmds.len(),
{
    if cmds.len() > 0 {
        let d = cmds.drop_last();
        assert forall|i: int| 0 <= i < d.len() implies shell_bucket(#[trigger] d[i]) != key by {
            assert(d[i] == cmds[i]);
        }
        lemma_bucket_count_zero(d, key);
        assert(shell_bucket(cmds[cmds.len() - 1]) != key);
    }
}

fn find_row(rows: &Vec<(String, u64)>, key: &str) -> (r: Option<usize>)
    ensures
        match r {
            Some(p) => p < rows@.len() && rows@[p as int].0@ == key@,
            None => forall|j: int| 0 <= j < rows@.len() ==> (#[trigger] rows@[j]).0@ != key@,
        },
{
    let mut p: usize = 0;
    while p < rows.len()
        invariant
            p <= rows@.len(),
            forall|j: int| 0 <= j < p ==> (#[trigger] rows@[j]).0@ != key@,
        decreases rows.len() - p,
    {
        if crate::text::str_eq(rows[p].0.as_str(), key) {
            return Some(p);
        }
        p += 1;
    }
    None
}

/// Counts the commands of each bucket, in the order buckets first occur.
fn count_buckets(cmds: &Vec<String>) -> (r: Vec<(String, u64)>)
    ensures
        is_bucket_table(row_views(r@), cmd_views(cmds@)),
{
    let ghost cv = cmd_views(cmds@);
    let mut rows: Vec<(String, u64)> = Vec::new();
    let mut k: usize = 0;
    assert(row_views(rows@) =~= Seq::<(Seq<char>, u64)>::empty());
    while k < cmds.len()
        invariant
            k <= cmds@.len(),
            cv == cmd_views(cmds@),
            is_bucket_table(row_views(rows@), cv.take(k as int)),
        decreases cmds.len() - k,
    {
        let ghost pre = cv.take(k as int);
        let ghost next = cv.take(k + 1);
        let ghost rv = row_views(rows@);
        assert(next.drop_last() =~= pre);
        assert(next.last() == cmds@[k as int]@);
        assert forall|i: int| 0 <= i < pre.len() implies #[trigger] next[i] == pre[i] by {}
        let h = shell_head(cmds[k].as_str());
        let ghost hv = h@;
        assert(hv == shell_bucket(next.last()));
        if h.as_str().is_empty() {
            proof {
                assert(hv.len() == 0);
                assert forall|i: int| 0 <= i < rv.len() implies (#[trigger] rv[i]).1 == bucket_count(
                    next,
                    rv[i].0,
                ) by {}
                assert forall|i: int|
                    0 <= i < next.len() && shell_bucket(#[trigger] next[i]).len() > 0 implies exists|j: int|
                    0 <= j < rv.len() && rv[j].0 == shell_bucket(next[i]) by {
                    if i < k {
                        assert(next[i] == pre[i]);
                    }
                }
            }
        } else {
            match find_row(&rows, h.as_str()) {
                Some(p) => {
                    let c = rows[p].1;
                    proof {
                        assert(rv[p as int] == (rows@[p as int].0@, c));
                        lemma_bucket_count_bound(pre, hv);
                        assert(c <= k);
                    }
                    let key = rows[p].0.clone();
                    rows.set(p, (key, c + 1));
                    proof {
                        let nv = row_views(rows@);
                        assert(nv =~= rv.update(p as int, (hv, (c + 1) as u64)));
                        assert forall|i: int, j: int| 0 <= i < j < nv.len() implies #[trigger] nv[i].0
                            != #[trigger] nv[j].0 by {
                            assert(nv[i].0 == rv[i].0 && nv[j].0 == rv[j].0);
                        }
                        assert forall|i: int| 0 <= i < nv.len() implies (#[trigger] nv[i]).0.len() > 0
                            && nv[i].1 == bucket_count(next, nv[i].0) by {
                            assert(nv[i].0 == rv[i].0);
                        }
                        assert forall|i: int|
                            0 <= i < next.len() && shell_bucket(#[trigger] next[i]).len() > 0 implies exists|j: int|
                            0 <= j < nv.len() && nv[j].0 == shell_bucket(next[i]) by {
                            if i < k {
                                assert(next[i] == pre[i]);
                                let j = choose|j: int| 0 <= j < rv.len() && rv[j].0 == shell_bucket(pre[i]);
                                assert(nv[j].0 == rv[j].0);
                            } else {
                                assert(nv[p as int].0 == hv);
                            }
                        }
                    }
                },
                None => {
                    proof {
                        assert forall|i: int| 0 <= i < pre.len() implies shell_bucket(#[trigger] pre[i]) != hv by {
                            if shell_bucket(pre[i]) == hv {
                                let j = choose|j: int| 0 <= j < rv.len() && rv[j].0 == shell_bucket(pre[i]);
                                assert(rows@[j].0@ == rv[j].0);
                            }
                        }
                        lemma_bucket_count_zero(pre, hv);
                    }
                    rows.push((h, 1));
                    proof {
                        let nv = row_views(rows@);
                        assert(nv =~= rv.push((hv, 1u64)));
                        assert forall|i: int, j: int| 0 <= i < j < nv.len() implies #[trigger] nv[i].0
                            != #[trigger] nv[j].0 by {
                            if j == rv.len() {
                                assert(rows@[i].0@ == rv[i].0);
                            }
                        }
                        assert forall|i: int| 0 <= i < nv.len() implies (#[trigger] nv[i]).0.len() > 0
                            && nv[i].1 == bucket_count(next, nv[i].0) by {
                            if i < rv.len() {
                                assert(nv[i] == rv[i]);
                                assert(rows@[i].0@ == rv[i].0);
                            }
                        }
                        assert forall|i: int|
                            0 <= i < next.len() && shell_bucket(#[trigger] next[i]).len() > 0 implies exists|j: int|
                            0 <= j < nv.len() && nv[j].0 == shell_bucket(next[i]) by {
                            if i < k {
                                assert(next[i] == pre[i]);
                                let j = choose|j: int| 0 <= j < rv.len() && rv[j].0 == shell_bucket(pre[i]);
                                assert(nv[j] == rv[j]);
                            } else {
                                assert(nv[rv.len() as int].0 == hv);
                            }
                        }
                    }
                },
            }
        }
        k += 1;
    }
    assert(cv.take(cmds@.len() as int) =~= cv);
    rows
}


/// Keys of `a` are distinct, keys of `b` are distinct, and no key is in both.
pub open spec fn keys_apart(a: Seq<(Seq<char>, u64)>, b: Seq<(Seq<char>, u64)>) -> bool {
    &&& forall|i: int, j: int| 0 <= i < j < a.len() ==> #[trigger] a[i].0 != #[trigger] a[j].0
    &&& forall|i: int, j: int| 0 <= i < j < b.len() ==> #[trigger] b[i].0 != #[trigger] b[j].0
    &&& forall|i: int, j: int| 0 <= i < a.len() && 0 <= j < b.len() ==> #[trigger] a[i].0 != #[trigger] b[j].0
}

/// Counts never rise along `rows`.
pub open spec fn by_count_desc(rows: Seq<(Seq<char>, u64)>) -> bool {
    forall|i: int, j: int| 0 <= i < j < rows.len() ==> #[trigger] rows[i].1 >= #[trigger] rows[j].1
}

/// `rows` holds exactly the rows of `a` and `b` together.
pub open spec fn same_rows(rows: Seq<(Seq<char>, u64)>, a: Seq<(Seq<char>, u64)>, b: Seq<(Seq<char>, u64)>) -> bool {
    forall|x: (Seq<char>, u64)| rows.contains(x) <==> a.contains(x) || b.contains(x)
}

proof fn lemma_move_row(
    bv: Seq<(Seq<char>, u64)>,
    ov: Seq<(Seq<char>, u64)>,
    rv: Seq<(Seq<char>, u64)>,
    m: int,
)
    requires
        0 <= m < rv.len(),
        same_rows(bv, ov, rv),
        keys_apart(ov, rv),
        by_count_desc(ov),
        forall|i: int, j: int| 0 <= i < ov.len() && 0 <= j < rv.len() ==> #[trigger] ov[i].1 >= #[trigger] rv[j].1,
        forall|j: int| 0 <= j < rv.len() ==> rv[m].1 >= (#[trigger] rv[j]).1,
    ensures
        same_rows(bv, ov.push(rv[m]), rv.remove(m)),
        keys_apart(ov.push(rv[m]), rv.remove(m)),
        by_count_desc(ov.push(rv[m])),
        forall|i: int, j: int|
            0 <= i < ov.push(rv[m]).len() && 0 <= j < rv.remove(m).len() ==> #[trigger] ov.push(rv[m])[i].1
                >= #[trigger] rv.remove(m)[j].1,
{
    let x = rv[m];
    let ov2 = ov.push(x);
    let rv2 = rv.remove(m);
    assert forall|j: int| 0 <= j < rv2.len() implies #[trigger] rv2[j] == rv[if j < m { j } else { j + 1 }] by {}
    assert forall|y: (Seq<char>, u64)| bv.contains(y) <==> ov2.contains(y) || rv2.contains(y) by {
        if ov.contains(y) {
            let i = choose|i: int| 0 <= i < ov.len() && ov[i] == y;
            assert(ov2[i] == y);
        }
        if rv.contains(y) {
            let t = choose|t: int| 0 <= t < rv.len() && rv[t] == y;
            if t < m {
                assert(rv2[t] == y);
            } else if t == m {
                assert(ov2[ov.len() as int] == y);
            } else {
                assert(rv2[t - 1] == y);
            }
        }
        if ov2.contains(y) {
            let i = choose|i: int| 0 <= i < ov2.len() && ov2[i] == y;
            if i < ov.len() {
                assert(ov[i] == y);
            } else {
                assert(rv[m] == y);
            }
        }
        if rv2.contains(y) {
            let t = choose|t: int| 0 <= t < rv2.len() && rv2[t] == y;
            if t < m {
                assert(rv[t] == y);
            } else {
                assert(rv[t + 1] == y);
            }
        }
    }
    assert forall|i: int, j: int| 0 <= i < j < ov2.len() implies #[trigger] ov2[i].0 != #[trigger] ov2[j].0 by {
        if j == ov.len() {
            assert(ov[i].0 != rv[m].0);
        }
    }
    assert forall|i: int, j: int| 0 <= i < j < rv2.len() implies #[trigger] rv2[i].0 != #[trigger] rv2[j].0 by {
        let a = if i < m { i } else { i + 1 };
        let b = if j < m { j } else { j + 1 };
        assert(rv2[i] == rv[a] && rv2[j] == rv[b]);
    }
    assert forall|i: int, j: int| 0 <= i < ov2.len() && 0 <= j < rv2.len() implies #[trigger] ov2[i].0
        != #[trigger] rv2[j].0 by {
        let b = if j < m { j } else { j + 1 };
        assert(rv2[j] == rv[b]);
        if i < ov.len() {
            assert(ov2[i] == ov[i]);
        } else {
            assert(ov2[i] == rv[m]);
        }
    }
    assert forall|i: int, j: int| 0 <= i < j < ov2.len() implies #[trigger] ov2[i].1 >= #[trigger] ov2[j].1 by {
        if j == ov.len() {
            assert(ov[i].1 >= rv[m].1);
        } else {
            assert(ov2[i] == ov[i] && ov2[j] == ov[j]);
        }
    }
    assert forall|i: int, j: int| 0 <= i < ov2.len() && 0 <= j < rv2.len() implies #[trigger] ov2[i].1
        >= #[trigger] rv2[j].1 by {
        let b = if j < m { j } else { j + 1 };
        assert(rv2[j] == rv[b]);
        if i < ov.len() {
            assert(ov2[i] == ov[i]);
        } else {
            assert(ov2[i] == rv[m]);
        }
    }
}

/// The shell breakdown of the commands: one row per program (see
/// `shell_bucket`) with the number of commands that run it, most used
/// first; commands with no program are left out.
pub fn shell_breakdown(cmds: &Vec<String>) -> (r: Vec<(String, u64)>)
    ensures
        is_bucket_table(row_views(r@), cmd_views(cmds@)),
        by_count_desc(row_views(r@)),
{
    let b = count_buckets(cmds);
    let ghost bv = row_views(b@);
    let ghost cv = cmd_views(cmds@);
    let mut rest = b;
    let mut out: Vec<(String, u64)> = Vec::new();
    proof {
        assert(row_views(out@) =~= Seq::<(Seq<char>, u64)>::empty());
        assert forall|y: (Seq<char>, u64)| bv.contains(y) <==> row_views(out@).contains(y) || row_views(
            rest@,
        ).contains(y) by {}
    }
    while rest.len() > 0
        invariant
            is_bucket_table(bv, cv),
            same_rows(bv, row_views(out@), row_views(rest@)),
            keys_apart(row_views(out@), row_views(rest@)),
            by_count_desc(row_views(out@)),
            forall|i: int, j: int|
                0 <= i < row_views(out@).len() && 0 <= j < row_views(rest@).len() ==> #[trigger] row_views(
                    out@,
                )[i].1 >= #[trigger] row_views(rest@)[j].1,
        decreases rest.len(),
    {
        let ghost ov = row_views(out@);
        let ghost rv = row_views(rest@);
        let mut m: usize = 0;
        let mut t: usize = 1;
        while t < rest.len()
            invariant
                rest@.len() > 0,
                m < rest@.len(),
                1 <= t <= rest@.len(),
                forall|j: int| 0 <= j < t ==> rest@[m as int].1 >= (#[trigger] rest@[j]).1,
            decreases rest.len() - t,
        {
            if rest[t].1 > rest[m].1 {
                m = t;
            }
            t += 1;
        }
        proof {
            assert forall|j: int| 0 <= j < rv.len() implies rv[m as int].1 >= (#[trigger] rv[j]).1 by {
                assert(rv[j].1 == rest@[j].1);
            }
            lemma_move_row(bv, ov, rv, m as int);
        }
        let x = rest.remove(m);
        out.push(x);
        proof {
            assert(row_views(out@) =~= ov.push(rv[m as int]));
            assert(row_views(rest@) =~= rv.remove(m as int));
        }
    }
    proof {
        let ov = row_views(out@);
        assert(row_views(rest@) =~= Seq::<(Seq<char>, u64)>::empty());
        assert forall|i: int| 0 <= i < ov.len() implies (#[trigger] ov[i]).0.len() > 0 && ov[i].1
            == bucket_count(cv, ov[i].0) by {
            assert(ov.contains(ov[i]));
            let j = choose|j: int| 0 <= j < bv.len() && bv[j] == ov[i];
            assert(bv[j] == ov[i]);
        }
        assert forall|i: int|
            0 <= i < cv.len() && shell_bucket(#[trigger] cv[i]).len() > 0 implies exists|j: int|
            0 <= j < ov.len() && ov[j].0 == shell_bucket(cv[i]) by {
            let j = choose|j: int| 0 <= j < bv.len() && bv[j].0 == shell_bucket(cv[i]);
            assert(bv.contains(bv[j]));
            let k = choose|k: int| 0 <= k < ov.len() && ov[k] == bv[j];
            assert(ov[k].0 == shell_bucket(cv[i]));
        }
    }
    out
}

} // verus!
