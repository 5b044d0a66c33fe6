//! Which price row applies to a model, the built-in table of rows, and
//! user overrides laid over it. The rates themselves are carried as an
//! opaque `P`: the table logic never looks inside a rate.

use vstd::prelude::*;
use crate::text::{ascii_lower_seq, chars_of, contains, contains_seq, owned};

verus! {

/// Per-event token counts as reported by a transcript's `usage` block.
/// The fields do not overlap.
#[derive(Clone, Copy, Debug)]
pub struct TokenUsage {
    pub input: u64,
    pub cache_write_5m: u64,
    pub cache_write_1h: u64,
    pub cache_read: u64,
    pub output: u64,
}

impl TokenUsage {
    pub fn default() -> (r: TokenUsage)
        ensures
            r.input == 0 && r.cache_write_5m == 0 && r.cache_write_1h == 0 && r.cache_read == 0
                && r.output == 0,
    {
        TokenUsage { input: 0, cache_write_5m: 0, cache_write_1h: 0, cache_read: 0, output: 0 }
    }
}

/// One row of the price table: the `id` matched against model names, a
/// label, whether the model is deprecated, and its rates.
pub struct PricingEntry<P> {
    pub id: String,
    pub label: String,
    pub deprecated: bool,
    pub pricing: P,
}

/// Price rows, most specific ids first.
pub struct PricingTable<P> {
    pub entries: Vec<PricingEntry<P>>,
}

/// What `str::to_lowercase` makes of a string (full Unicode lowercase
/// mapping).
pub uninterp spec fn unicode_lower(s: Seq<char>) -> Seq<char>;

/// Lowercases `s` with `str::to_lowercase`; the result is the named
/// Unicode lowercase of `s`. For ASCII text Unicode's lowercase mapping is
/// ASCII's: `A`-`Z` become `a`-`z`, every other character stays.
#[verifier::external_body]
fn to_lowercase(s: &str) -> (r: String)
    ensures
        r@ == unicode_lower(s@),
        (forall|i: int| 0 <= i < s@.len() ==> (#[trigger] s@[i] as u32) < 128) ==> r@ == ascii_lower_seq(
            s@,
        ),
{
    s.to_lowercase()
}

/// Row `e` applies to a model whose lowercased name is `model_lc`: its id
/// is non-empty and, lowercased, occurs in the name.
pub open spec fn row_matches(id: Seq<char>, model_lc: Seq<char>) -> bool {
    id.len() > 0 && contains_seq(model_lc, unicode_lower(id))
}

/// `i` is the first row of `ids` that applies to `model_lc`.
pub open spec fn first_match(ids: Seq<Seq<char>>, model_lc: Seq<char>, i: int) -> bool {
    0 <= i < ids.len() && row_matches(ids[i], model_lc) && forall|j: int|
        0 <= j < i ==> !row_matches(#[trigger] ids[j], model_lc)
}

pub open spec fn entry_ids<P>(entries: Seq<PricingEntry<P>>) -> Seq<Seq<char>> {
    entries.map_values(|e: PricingEntry<P>| e.id@)
}

impl<P: Copy> PricingTable<P> {
    /// Position of the first row whose id, lowercased, occurs in the
    /// lowercased `model`.
    pub fn pricing_index(&self, model: &str) -> (r: Option<usize>)
        ensures
            match r {
                Some(i) => first_match(entry_ids(self.entries@), unicode_lower(model@), i as int),
                None => forall|j: int|
                    0 <= j < self.entries@.len() ==> !row_matches(
                        #[trigger] entry_ids(self.entries@)[j],
                        unicode_lower(model@),
                    ),
            },
    {
        let lc = to_lowercase(model);
        let hay = chars_of(lc.as_str());
        let ghost ids = entry_ids(self.entries@);
        let mut i: usize = 0;
        while i < self.entries.len()
            invariant
                i <= self.entries.len(),
                ids == entry_ids(self.entries@),
                hay@ == unicode_lower(model@),
                forall|j: int| 0 <= j < i ==> !row_matches(#[trigger] ids[j], unicode_lower(model@)),
            decreases self.entries.len() - i,
        {
            let id = self.entries[i].id.as_str();
            let id_chars = chars_of(id);
            if id_chars.len() > 0 {
                let needle_s = to_lowercase(id);
                let needle = chars_of(needle_s.as_str());
                if contains(&hay, &needle) {
                    assert(ids[i as int] == self.entries@[i as int].id@);
                    return Some(i);
                }
            }
            assert(ids[i as int] == self.entries@[i as int].id@);
            i += 1;
        }
        None
    }

    /// The rates of the first row that applies to `model` (see
    /// `pricing_index`), or `fallback` when none does.
    pub fn pricing_for(&self, model: &str, fallback: P) -> (r: P)
        ensures
            (exists|i: int| first_match(entry_ids(self.entries@), unicode_lower(model@), i))
                ==> r == self.entries@[choose|i: int|
                first_match(entry_ids(self.entries@), unicode_lower(model@), i)].pricing,
            !(exists|i: int| first_match(entry_ids(self.entries@), unicode_lower(model@), i))
                ==> r == fallback,
    {
        match self.pricing_index(model) {
            Some(i) => {
                proof {
                    let ids = entry_ids(self.entries@);
                    let lc = unicode_lower(model@);
                    let k = choose|k: int| first_match(ids, lc, k);
                    if k < i {
                        assert(!row_matches(ids[k], lc));
                    }
                    if (i as int) < k {
                        assert(!row_matches(ids[i as int], lc));
                    }
                }
                self.entries[i].pricing
            },
            None => {
                proof {
                    let ids = entry_ids(self.entries@);
                    let lc = unicode_lower(model@);
                    if exists|k: int| first_match(ids, lc, k) {
                        let k = choose|k: int| first_match(ids, lc, k);
                        assert(!row_matches(ids[k], lc));
                    }
                }
                fallback
            },
        }
    }
}

/// The price families of the built-in table. Rows of one family share
/// their rates.
#[derive(Clone, Copy, Debug, PartialEq, Eq, Structural)]
pub enum PriceFamily {
    OpusNew,
    OpusLegacy,
    Sonnet,
    Haiku45,
    Haiku35,
    Haiku3,
}

/// The rows of the built-in table: id, label, deprecated, family.
pub open spec fn default_rows() -> Seq<(Seq<char>, Seq<char>, bool, PriceFamily)> {
    seq![
        ("opus-4-7"@, "Opus 4.7"@, false, PriceFamily::OpusNew),
        ("opus-4-6"@, "Opus 4.6"@, false, PriceFamily::OpusNew),
        ("opus-4-5"@, "Opus 4.5"@, false, PriceFamily::OpusNew),
        ("opus-4-1"@, "Opus 4.1"@, false, PriceFamily::OpusLegacy),
        ("opus-4"@, "Opus 4"@, false, PriceFamily::OpusLegacy),
        ("opus-3"@, "Opus 3"@, true, PriceFamily::OpusLegacy),
        ("sonnet-4-6"@, "Sonnet 4.6"@, false, PriceFamily::Sonnet),
        ("sonnet-4-5"@, "Sonnet 4.5"@, false, PriceFamily::Sonnet),
        ("sonnet-4"@, "Sonnet 4"@, false, PriceFamily::Sonnet),
        ("sonnet-3-7"@, "Sonnet 3.7"@, true, PriceFamily::Sonnet),
        ("haiku-4-5"@, "Haiku 4.5"@, false, PriceFamily::Haiku45),
        ("haiku-3-5"@, "Haiku 3.5"@, false, PriceFamily::Haiku35),
        ("haiku-3"@, "Haiku 3"@, false, PriceFamily::Haiku3),
    ]
}

pub open spec fn row_of(e: PricingEntry<PriceFamily>) -> (Seq<char>, Seq<char>, bool, PriceFamily) {
    (e.id@, e.label@, e.deprecated, e.pricing)
}

fn entry(id: &str, label: &str, deprecated: bool, pricing: PriceFamily) -> (r: PricingEntry<
    PriceFamily,
>)
    ensures
        row_of(r) == (id@, label@, deprecated, pricing),
{
    PricingEntry { id: owned(id), label: owned(label), deprecated, pricing }
}

/// The family used when no row applies to a model.
pub fn fallback_family() -> (r: PriceFamily)
    ensures
        r == PriceFamily::Sonnet,
{
    PriceFamily::Sonnet
}

/// The built-in table, most specific ids first, so that `opus-4-7` is
/// found before `opus-4`. An id is matched anywhere in a model name, so
/// each row applies to every dated or prefixed model id of its version.
pub fn default_pricing_table() -> (r: PricingTable<PriceFamily>)
    ensures
        r.entries@.map_values(|e: PricingEntry<PriceFamily>| row_of(e)) == default_rows(),
{
    let mut v: Vec<PricingEntry<PriceFamily>> = Vec::new();
    v.push(entry("opus-4-7", "Opus 4.7", false, PriceFamily::OpusNew));
    v.push(entry("opus-4-6", "Opus 4.6", false, PriceFamily::OpusNew));
    v.push(entry("opus-4-5", "Opus 4.5", false, PriceFamily::OpusNew));
    v.push(entry("opus-4-1", "Opus 4.1", false, PriceFamily::OpusLegacy));
    v.push(entry("opus-4", "Opus 4", false, PriceFamily::OpusLegacy));
    v.push(entry("opus-3", "Opus 3", true, PriceFamily::OpusLegacy));
    v.push(entry("sonnet-4-6", "Sonnet 4.6", false, PriceFamily::Sonnet));
    v.push(entry("sonnet-4-5", "Sonnet 4.5", false, PriceFamily::Sonnet));
    v.push(entry("sonnet-4", "Sonnet 4", false, PriceFamily::Sonnet));
    v.push(entry("sonnet-3-7", "Sonnet 3.7", true, PriceFamily::Sonnet));
    v.push(entry("haiku-4-5", "Haiku 4.5", false, PriceFamily::Haiku45));
    v.push(entry("haiku-3-5", "Haiku 3.5", false, PriceFamily::Haiku35));
    v.push(entry("haiku-3", "Haiku 3", false, PriceFamily::Haiku3));
    assert(v@.map_values(|e: PricingEntry<PriceFamily>| row_of(e)) =~= default_rows());
    PricingTable { entries: v }
}

/// The override given for `id`: the first pair of `overrides` keyed `id`.
pub open spec fn override_for<P>(overrides: Seq<(Seq<char>, P)>, id: Seq<char>) -> Option<P>
    decreases overrides.len(),
{
    if overrides.len() == 0 {
        None
    } else if overrides[0].0 == id {
        Some(overrides[0].1)
    } else {
        override_for(overrides.drop_first(), id)
    }
}

pub open spec fn key_views<P>(overrides: Seq<(String, P)>) -> Seq<(Seq<char>, P)> {
    overrides.map_values(|o: (String, P)| (o.0@, o.1))
}

fn find_override<P: Copy>(overrides: &Vec<(String, P)>, id: &str) -> (r: Option<P>)
    ensures
        r == override_for(key_views(overrides@), id@),
{
    let ghost kv = key_views(overrides@);
    assert(kv.subrange(0, kv.len() as int) =~= kv);
    let mut i: usize = 0;
    while i < overrides.len()
        invariant
            i <= overrides.len(),
            kv == key_views(overrides@),
            override_for(kv, id@) == override_for(kv.subrange(i as int, kv.len() as int), id@),
        decreases overrides.len() - i,
    {
        let ghost rest = kv.subrange(i as int, kv.len() as int);
        assert(rest[0] == (overrides@[i as int].0@, overrides@[i as int].1));
        if crate::text::str_eq(overrides[i].0.as_str(), id) {
            return Some(overrides[i].1);
        }
        assert(rest.drop_first() =~= kv.subrange(i + 1, kv.len() as int));
        i += 1;
    }
    None
}

/// Lays `overrides` over `defaults`: a row whose id has an override (keys
/// compared exactly) takes its rates; rows keep their order, ids, labels
/// and flags, and overrides for unknown ids are ignored.
pub fn merge_overrides<P: Copy>(defaults: PricingTable<P>, overrides: &Vec<(String, P)>) -> (r:
    PricingTable<P>)
    ensures
        r.entries@.len() == defaults.entries@.len(),
        forall|i: int|
            0 <= i < r.entries@.len() ==> {
                let d = #[trigger] defaults.entries@[i];
                let e = r.entries@[i];
                &&& e.id@ == d.id@
                &&& e.label@ == d.label@
                &&& e.deprecated == d.deprecated
                &&& e.pricing == match override_for(key_views(overrides@), d.id@) {
                    Some(p) => p,
                    None => d.pricing,
                }
            },
{
    let ghost d0 = defaults.entries@;
    assert(d0.len() == defaults.entries.len());
    let mut rest = defaults.entries;
    let mut out: Vec<PricingEntry<P>> = Vec::new();
    let mut k: usize = 0;
    while rest.len() > 0
        invariant
            k + rest@.len() == d0.len(),
            d0.len() <= usize::MAX,
            rest@ == d0.subrange(k as int, d0.len() as int),
            out@.len() == k,
            forall|i: int|
                0 <= i < k ==> {
                    let d = #[trigger] d0[i];
                    let e = out@[i];
                    &&& e.id@ == d.id@
                    &&& e.label@ == d.label@
                    &&& e.deprecated == d.deprecated
                    &&& e.pricing == match override_for(key_views(overrides@), d.id@) {
                        Some(p) => p,
                        None => d.pricing,
                    }
                },
        decreases rest@.len(),
    {
        let e = rest.remove(0);
        assert(e == d0[k as int]);
        let p = match find_override(overrides, e.id.as_str()) {
            Some(p) => p,
            None => e.pricing,
        };
        out.push(PricingEntry { id: e.id, label: e.label, deprecated: e.deprecated, pricing: p });
        k += 1;
        assert(rest@ =~= d0.subrange(k as int, d0.len() as int));
    }
    PricingTable { entries: out }
}

} // verus!
