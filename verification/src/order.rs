//! Text order and the stable sort the dashboard lists are kept in.

use vstd::prelude::*;
use crate::text::chars_of;

verus! {

/// `a` sorts strictly before `b`: the order of `str`'s `<`, which compares
/// UTF-8 bytes and therefore code points, character by character.
pub open spec fn lex_lt(a: Seq<char>, b: Seq<char>) -> bool
    decreases a.len(),
{
    if a.len() == 0 {
        b.len() > 0
    } else if b.len() == 0 {
        false
    } else if a[0] != b[0] {
        (a[0] as int) < (b[0] as int)
    } else {
        lex_lt(a.drop_first(), b.drop_first())
    }
}

pub proof fn lemma_lex_irreflexive(a: Seq<char>)
    ensures
        !lex_lt(a, a),
    decreases a.len(),
{
    if a.len() > 0 {
        lemma_lex_irreflexive(a.drop_first());
    }
}

pub proof fn lemma_lex_transitive(a: Seq<char>, b: Seq<char>, c: Seq<char>)
    requires
        lex_lt(a, b),
        lex_lt(b, c),
    ensures
        lex_lt(a, c),
    decreases a.len(),
{
    if a.len() > 0 && b.len() > 0 && c.len() > 0 {
        if a[0] == b[0] && b[0] == c[0] {
            lemma_lex_transitive(a.drop_first(), b.drop_first(), c.drop_first());
        }
    }
}

pub proof fn lemma_lex_total(a: Seq<char>, b: Seq<char>)
    ensures
        a == b || lex_lt(a, b) || lex_lt(b, a),
    decreases a.len(),
{
    if a.len() > 0 && b.len() > 0 && a[0] != b[0] {
        assert((a[0] as int) != (b[0] as int));
    } else if a.len() > 0 && b.len() > 0 && a[0] == b[0] {
        lemma_lex_total(a.drop_first(), b.drop_first());
        if a.drop_first() == b.drop_first() {
            assert(a =~= seq![a[0]] + a.drop_first());
            assert(b =~= seq![b[0]] + b.drop_first());
        }
    } else if a.len() == 0 && b.len() == 0 {
        assert(a =~= b);
    }
}

/// Whether `a` sorts strictly before `b` (see `lex_lt`).
pub fn str_lt(a: &str, b: &str) -> (r: bool)
    ensures
        r == lex_lt(a@, b@),
{
    let x = chars_of(a);
    let y = chars_of(b);
    let mut i: usize = 0;
    assert(a@.skip(0) =~= a@);
    assert(b@.skip(0) =~= b@);
    while i < x.len() && i < y.len() && x[i] == y[i]
        invariant
            x@ == a@,
            y@ == b@,
            i <= x@.len(),
            i <= y@.len(),
            lex_lt(a@, b@) == lex_lt(a@.skip(i as int), b@.skip(i as int)),
        decreases x.len() - i,
    {
        assert(a@.skip(i as int).drop_first() =~= a@.skip(i + 1));
        assert(b@.skip(i as int).drop_first() =~= b@.skip(i + 1));
        i += 1;
    }
    if i == x.len() {
        i < y.len()
    } else if i == y.len() {
        false
    } else {
        x[i] < y[i]
    }
}

/// A sort key: smaller rank first, then the larger text first.
pub open spec fn key_lt(k1: (u8, Seq<char>), k2: (u8, Seq<char>)) -> bool {
    k1.0 < k2.0 || (k1.0 == k2.0 && lex_lt(k2.1, k1.1))
}

pub proof fn lemma_key_irreflexive(k: (u8, Seq<char>))
    ensures
        !key_lt(k, k),
{
    lemma_lex_irreflexive(k.1);
}

pub proof fn lemma_key_transitive(a: (u8, Seq<char>), b: (u8, Seq<char>), c: (u8, Seq<char>))
    requires
        key_lt(a, b),
        key_lt(b, c),
    ensures
        key_lt(a, c),
{
    if a.0 == b.0 && b.0 == c.0 {
        lemma_lex_transitive(c.1, b.1, a.1);
    }
}

fn key_lt_exec(k1: &(u8, String), k2: &(u8, String)) -> (r: bool)
    ensures
        r == key_lt((k1.0, k1.1@), (k2.0, k2.1@)),
{
    k1.0 < k2.0 || (k1.0 == k2.0 && str_lt(k2.1.as_str(), k1.1.as_str()))
}

pub open spec fn key_views(keys: Seq<(u8, String)>) -> Seq<(u8, Seq<char>)> {
    keys.map_values(|k: (u8, String)| (k.0, k.1@))
}

/// `perm` lists the positions of `keys` in a stable sorted order: each
/// position once, no key before a key it sorts after, and equal keys in
/// their original order.
pub open spec fn is_stable_order(keys: Seq<(u8, Seq<char>)>, perm: Seq<int>) -> bool {
    &&& perm.len() == keys.len()
    &&& forall|i: int| 0 <= i < perm.len() ==> 0 <= #[trigger] perm[i] < keys.len()
    &&& forall|i: int, j: int| 0 <= i < j < perm.len() ==> #[trigger] perm[i] != #[trigger] perm[j]
    &&& forall|i: int, j: int|
        0 <= i < j < perm.len() ==> !key_lt(keys[#[trigger] perm[j]], keys[#[trigger] perm[i]])
    &&& forall|i: int, j: int|
        0 <= i < j < perm.len() && keys[#[trigger] perm[i]] == keys[#[trigger] perm[j]] ==> perm[i]
            < perm[j]
}

/// Sorts `items` stably by their `keys` (see `key_lt`).
pub fn sort_by_key<X>(items: Vec<X>, keys: Vec<(u8, String)>) -> (r: Vec<X>)
    requires
        items@.len() == keys@.len(),
    ensures
        exists|perm: Seq<int>|
            is_stable_order(key_views(keys@), perm) && r@.len() == perm.len() && forall|i: int|
                0 <= i < r@.len() ==> #[trigger] r@[i] == items@[perm[i]],
{
    let ghost ks = key_views(keys@);
    let ghost items0 = items@;
    let ghost total = items@.len();
    assert(items@.len() == items.len());
    let mut rest_items = items;
    let mut rest_keys = keys;
    let mut out: Vec<X> = Vec::new();
    let mut out_keys: Vec<(u8, String)> = Vec::new();
    let ghost mut perm: Seq<int> = Seq::empty();
    let mut n: usize = 0;
    assert(items0.subrange(0, total as int) =~= items0);
    assert(ks.subrange(0, total as int) =~= ks);
    while rest_items.len() > 0
        invariant
            total == items0.len(),
            total == ks.len(),
            total <= usize::MAX,
            n + rest_items@.len() == total,
            rest_keys@.len() == rest_items@.len(),
            rest_items@ == items0.subrange(n as int, total as int),
            key_views(rest_keys@) == ks.subrange(n as int, total as int),
            perm.len() == n,
            out@.len() == n,
            out_keys@.len() == n,
            forall|i: int| 0 <= i < n ==> 0 <= #[trigger] perm[i] < n,
            forall|i: int, j: int| 0 <= i < j < n ==> #[trigger] perm[i] != #[trigger] perm[j],
            forall|i: int| 0 <= i < n ==> #[trigger] out@[i] == items0[perm[i]],
            forall|i: int| 0 <= i < n ==> #[trigger] key_views(out_keys@)[i] == ks[perm[i]],
            forall|i: int, j: int|
                0 <= i < j < n ==> !key_lt(
                    #[trigger] key_views(out_keys@)[j],
                    #[trigger] key_views(out_keys@)[i],
                ),
            forall|i: int, j: int|
                0 <= i < j < n && #[trigger] key_views(out_keys@)[i] == #[trigger] key_views(
                    out_keys@,
                )[j] ==> perm[i] < perm[j],
        decreases rest_items@.len(),
    {
        let ghost okv = key_views(out_keys@);
        let ghost old_rest_keys = rest_keys@;
        let x = rest_items.remove(0);
        let k = rest_keys.remove(0);
        let ghost kv = (k.0, k.1@);
        assert(x == items0[n as int]);
        assert(key_views(old_rest_keys)[0] == kv);
        assert(kv == ks[n as int]);
        assert(rest_keys@ =~= old_rest_keys.subrange(1, old_rest_keys.len() as int));
        assert(key_views(rest_keys@) =~= key_views(old_rest_keys).subrange(
            1,
            old_rest_keys.len() as int,
        ));
        let mut q: usize = 0;
        while q < out_keys.len() && !key_lt_exec(&k, &out_keys[q])
            invariant
                q <= out_keys@.len(),
                okv == key_views(out_keys@),
                kv == (k.0, k.1@),
                forall|i: int| 0 <= i < q ==> !key_lt(kv, #[trigger] okv[i]),
            decreases out_keys@.len() - q,
        {
            q += 1;
        }
        proof {
            if q < okv.len() {
                assert(key_lt(kv, okv[q as int]));
                assert forall|m: int| q <= m < okv.len() implies !key_lt(#[trigger] okv[m], kv) by {
                    if key_lt(okv[m], kv) {
                        lemma_key_transitive(okv[m], kv, okv[q as int]);
                        if m == q {
                            lemma_key_irreflexive(okv[m]);
                        }
                    }
                }
                assert forall|m: int| q <= m < okv.len() implies #[trigger] okv[m] != kv by {
                    if okv[m] == kv {
                        lemma_key_irreflexive(kv);
                        if m > q {
                            assert(!key_lt(okv[m], okv[q as int]));
                        }
                    }
                }
            }
        }
        let ghost old_perm = perm;
        let ghost old_out = out@;
        out.insert(q, x);
        out_keys.insert(q, k);
        proof {
            perm = old_perm.insert(q as int, n as int);
            let nkv = key_views(out_keys@);
            assert(nkv =~= okv.insert(q as int, kv));
        }
        n += 1;
        assert(rest_items@ =~= items0.subrange(n as int, total as int));
        assert(key_views(rest_keys@) =~= ks.subrange(n as int, total as int));
    }
    assert(key_views(keys@) == ks);
    proof {
        let okv = key_views(out_keys@);
        assert forall|i: int, j: int| 0 <= i < j < perm.len() implies !key_lt(
            ks[#[trigger] perm[j]],
            ks[#[trigger] perm[i]],
        ) by {
            assert(okv[i] == ks[perm[i]]);
            assert(okv[j] == ks[perm[j]]);
        }
        assert forall|i: int, j: int|
            0 <= i < j < perm.len() && ks[#[trigger] perm[i]] == ks[#[trigger] perm[j]] implies perm[i]
            < perm[j] by {
            assert(okv[i] == ks[perm[i]]);
            assert(okv[j] == ks[perm[j]]);
        }
    }
    assert(is_stable_order(ks, perm));
    out
}

} // verus!
verus! {

/// Position `k` occurs in `perm`.
pub open spec fn lists(perm: Seq<int>, k: int) -> bool {
    exists|i: int| 0 <= i < perm.len() && perm[i] == k
}

/// A stable order lists every position: it is a permutation.
pub proof fn lemma_stable_order_covers(keys: Seq<(u8, Seq<char>)>, perm: Seq<int>)
    requires
        is_stable_order(keys, perm),
    ensures
        forall|k: int| 0 <= k < keys.len() ==> #[trigger] lists(perm, k),
{
    let n = keys.len() as int;
    assert(perm.no_duplicates()) by {
        assert forall|i: int, j: int| 0 <= i < perm.len() && 0 <= j < perm.len() && i != j implies perm[i]
            != perm[j] by {
            if i < j {
                assert(perm[i] != perm[j]);
            } else {
                assert(perm[j] != perm[i]);
            }
        }
    }
    perm.unique_seq_to_set();
    vstd::seq_lib::seq_to_set_is_finite(perm);
    vstd::set_lib::lemma_int_range(0, n);
    let range = vstd::set_lib::set_int_range(0, n);
    assert(perm.to_set().subset_of(range)) by {
        assert forall|x: int| perm.to_set().contains(x) implies range.contains(x) by {
            let i = choose|i: int| 0 <= i < perm.len() && perm[i] == x;
        }
    }
    vstd::set_lib::lemma_subset_equality(perm.to_set(), range);
    assert forall|k: int| 0 <= k < n implies #[trigger] lists(perm, k) by {
        assert(range.contains(k));
        assert(perm.to_set().contains(k));
    }
}

} // verus!
