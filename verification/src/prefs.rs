//! The monitor's persisted preferences and the edits its commands make to
//! them. Price overrides and cached exchange rates are carried as opaque
//! `O` and `C`.

use vstd::prelude::*;
use crate::text::owned;

verus! {

/// Preferences, as stored in `prefs.json`.
#[derive(Debug)]
pub struct Prefs<O, C> {
    /// Register the hooks on launch.
    pub hooks_enabled: bool,
    /// Per-row price overrides, keyed by price-table id.
    pub pricing_overrides: O,
    /// ISO code of the display currency.
    pub pricing_currency: String,
    /// Last fetched exchange rates.
    pub currency_cache: Option<C>,
    /// Capture file snapshots of edit tool calls.
    pub snapshots_enabled: bool,
    /// Days a snapshot is kept.
    pub snapshot_retention_days: u32,
}

impl<O, C> Prefs<O, C> {
    /// The preferences of a fresh install, with `no_overrides` as the empty
    /// override set: hooks on, USD, no cached rates, snapshots on and kept
    /// for 14 days.
    pub fn with_defaults(no_overrides: O) -> (r: Prefs<O, C>)
        ensures
            r.hooks_enabled,
            r.pricing_overrides == no_overrides,
            r.pricing_currency@ == "USD"@,
            r.currency_cache is None,
            r.snapshots_enabled,
            r.snapshot_retention_days == 14,
    {
        Prefs {
            hooks_enabled: true,
            pricing_overrides: no_overrides,
            pricing_currency: owned("USD"),
            currency_cache: None,
            snapshots_enabled: true,
            snapshot_retention_days: 14,
        }
    }
}

/// Records whether the hooks are to be registered on launch; nothing else
/// changes.
pub fn set_hooks_enabled<O, C>(p: &mut Prefs<O, C>, enabled: bool)
    ensures
        final(p).hooks_enabled == enabled,
        final(p).pricing_overrides == old(p).pricing_overrides,
        final(p).pricing_currency == old(p).pricing_currency,
        final(p).currency_cache == old(p).currency_cache,
        final(p).snapshots_enabled == old(p).snapshots_enabled,
        final(p).snapshot_retention_days == old(p).snapshot_retention_days,
{
    p.hooks_enabled = enabled;
}

/// Sets the display currency; nothing else changes.
pub fn set_currency<O, C>(p: &mut Prefs<O, C>, code: String)
    ensures
        final(p).pricing_currency == code,
        final(p).hooks_enabled == old(p).hooks_enabled,
        final(p).pricing_overrides == old(p).pricing_overrides,
        final(p).currency_cache == old(p).currency_cache,
        final(p).snapshots_enabled == old(p).snapshots_enabled,
        final(p).snapshot_retention_days == old(p).snapshot_retention_days,
{
    p.pricing_currency = code;
}

/// Clears the price overrides (to `no_overrides`) and sets the display
/// currency back to USD; nothing else changes.
pub fn reset_pricing<O, C>(p: &mut Prefs<O, C>, no_overrides: O)
    ensures
        final(p).pricing_overrides == no_overrides,
        final(p).pricing_currency@ == "USD"@,
        final(p).hooks_enabled == old(p).hooks_enabled,
        final(p).currency_cache == old(p).currency_cache,
        final(p).snapshots_enabled == old(p).snapshots_enabled,
        final(p).snapshot_retention_days == old(p).snapshot_retention_days,
{
    p.pricing_overrides = no_overrides;
    p.pricing_currency = owned("USD");
}

/// Sets the snapshot settings; nothing else changes.
pub fn set_settings<O, C>(p: &mut Prefs<O, C>, enabled: bool, retention_days: u32)
    ensures
        final(p).snapshots_enabled == enabled,
        final(p).snapshot_retention_days == retention_days,
        final(p).hooks_enabled == old(p).hooks_enabled,
        final(p).pricing_overrides == old(p).pricing_overrides,
        final(p).pricing_currency == old(p).pricing_currency,
        final(p).currency_cache == old(p).currency_cache,
{
    p.snapshots_enabled = enabled;
    p.snapshot_retention_days = retention_days;
}

/// The event window for an agent: the live ring while it fills the window
/// or history is not wanted; else the stored history when it has any (it
/// holds everything the ring holds and older entries), else the ring.
pub open spec fn events_window<T>(ring: Seq<T>, cap: nat, include_history: bool, history: Seq<T>) -> Seq<T> {
    if !include_history || ring.len() >= cap {
        ring
    } else if history.len() == 0 {
        ring
    } else {
        history
    }
}

/// The window size asked for: `limit`, 200 by default.
pub open spec fn window_cap(limit: Option<usize>) -> nat {
    match limit {
        Some(n) => n as nat,
        None => 200,
    }
}

/// Whether the stored history is wanted: `include_history`, yes by default.
pub open spec fn history_wanted(include_history: Option<bool>) -> bool {
    match include_history {
        Some(b) => b,
        None => true,
    }
}

/// The event window from the ring and, when it was read, the history: the
/// history when it holds anything, else the ring.
pub open spec fn picked<T>(ring: Seq<T>, history: Option<Seq<T>>) -> Seq<T> {
    match history {
        Some(h) => if h.len() == 0 {
            ring
        } else {
            h
        },
        None => ring,
    }
}

/// Whether the stored history must be read for an event window of `limit`
/// entries (200 by default) when the ring holds `ring_len`.
pub fn needs_history(ring_len: usize, limit: Option<usize>, include_history: Option<bool>) -> (r: bool)
    ensures
        r == (history_wanted(include_history) && ring_len < window_cap(limit)),
{
    let cap = match limit {
        Some(n) => n,
        None => 200,
    };
    let wanted = match include_history {
        Some(b) => b,
        None => true,
    };
    wanted && ring_len < cap
}

/// The event window from the ring and, when it was read, the history.
pub fn pick_events<T>(ring: Vec<T>, history: Option<Vec<T>>) -> (r: Vec<T>)
    ensures
        r@ == picked(ring@, match history {
            Some(h) => Some(h@),
            None => None,
        }),
{
    match history {
        Some(h) => {
            if h.len() == 0 {
                ring
            } else {
                h
            }
        },
        None => ring,
    }
}

/// Law: reading the history only when `needs_history` says so, then
/// picking, gives the event window: the live ring when it fills the window
/// or history is not wanted, else the stored history when it has any, else
/// the ring.
pub proof fn law_event_window<T>(
    ring: Seq<T>,
    limit: Option<usize>,
    include_history: Option<bool>,
    history: Seq<T>,
)
    ensures
        picked(
            ring,
            if history_wanted(include_history) && ring.len() < window_cap(limit) {
                Some(history)
            } else {
                None
            },
        ) == events_window(ring, window_cap(limit), history_wanted(include_history), history),
{
}

} // verus!
