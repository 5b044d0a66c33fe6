//! The agent grid's groups: each parent session with the sub-agents it
//! spawned, the status and time a group shows, which groups a filter
//! keeps, and the order the grid lists them in.

use vstd::prelude::*;
use crate::order::{
    is_stable_order, key_views, lemma_lex_irreflexive, lemma_lex_total, lemma_lex_transitive,
    lex_lt, sort_by_key, str_lt,
};
use crate::status::{AgentStatus, Filter, filter_admits, status_rank};
use crate::text::{owned, str_eq};

verus! {

/// One agent of the grid, with what grouping and ordering read from it;
/// `data` carries the rest of the agent's record.
pub struct Member<T> {
    pub session_id: String,
    pub parent_id: Option<String>,
    pub status: AgentStatus,
    /// RFC 3339; later times sort later as text.
    pub last_activity: String,
    pub data: T,
}

/// A parent agent with its sub-agents.
pub struct AgentGroup<T> {
    pub parent: Member<T>,
    pub children: Vec<Member<T>>,
}

pub struct GroupView<T> {
    pub parent: Member<T>,
    pub children: Seq<Member<T>>,
}

impl<T> View for AgentGroup<T> {
    type V = GroupView<T>;

    open spec fn view(&self) -> GroupView<T> {
        GroupView { parent: self.parent, children: self.children@ }
    }
}

// ---------------------------------------------------------------- status

/// The headline status of members with statuses `st`: Working when any
/// member works (a parent waiting on its sub-agent is still busy), else
/// Error, else Waiting, else Idle.
pub open spec fn aggregate(st: Seq<AgentStatus>) -> AgentStatus {
    if exists|i: int| 0 <= i < st.len() && st[i] == AgentStatus::Working {
        AgentStatus::Working
    } else if exists|i: int| 0 <= i < st.len() && st[i] == AgentStatus::Error {
        AgentStatus::Error
    } else if exists|i: int| 0 <= i < st.len() && st[i] == AgentStatus::Waiting {
        AgentStatus::Waiting
    } else {
        AgentStatus::Idle
    }
}

pub open spec fn statuses<T>(parent: Member<T>, children: Seq<Member<T>>) -> Seq<AgentStatus> {
    seq![parent.status] + children.map_values(|c: Member<T>| c.status)
}

pub open spec fn activities<T>(parent: Member<T>, children: Seq<Member<T>>) -> Seq<Seq<char>> {
    seq![parent.last_activity@] + children.map_values(|c: Member<T>| c.last_activity@)
}

/// `x` is the latest of `acts`: one of them, and none sorts after it.
pub open spec fn is_latest(x: Seq<char>, acts: Seq<Seq<char>>) -> bool {
    (exists|i: int| 0 <= i < acts.len() && acts[i] == x) && forall|i: int|
        0 <= i < acts.len() ==> !lex_lt(x, #[trigger] acts[i])
}

/// The latest of `acts`.
pub open spec fn latest(acts: Seq<Seq<char>>) -> Seq<char> {
    choose|x: Seq<char>| is_latest(x, acts)
}

proof fn lemma_latest_unique(x: Seq<char>, acts: Seq<Seq<char>>)
    requires
        is_latest(x, acts),
    ensures
        latest(acts) == x,
{
    let y = latest(acts);
    assert(is_latest(y, acts));
    let i = choose|i: int| 0 <= i < acts.len() && acts[i] == x;
    let j = choose|j: int| 0 <= j < acts.len() && acts[j] == y;
    assert(!lex_lt(x, acts[j]));
    assert(!lex_lt(y, acts[i]));
    lemma_lex_total(x, y);
}

fn group_status<T>(parent: &Member<T>, children: &Vec<Member<T>>) -> (r: AgentStatus)
    ensures
        r == aggregate(statuses(*parent, children@)),
{
    let ghost st = statuses(*parent, children@);
    let mut working = parent.status == AgentStatus::Working;
    let mut error = parent.status == AgentStatus::Error;
    let mut waiting = parent.status == AgentStatus::Waiting;
    let mut i: usize = 0;
    assert(st[0] == parent.status);
    while i < children.len()
        invariant
            i <= children@.len(),
            st == statuses(*parent, children@),
            st.len() == children@.len() + 1,
            working == exists|j: int| 0 <= j < i + 1 && st[j] == AgentStatus::Working,
            error == exists|j: int| 0 <= j < i + 1 && st[j] == AgentStatus::Error,
            waiting == exists|j: int| 0 <= j < i + 1 && st[j] == AgentStatus::Waiting,
        decreases children@.len() - i,
    {
        let s = children[i].status;
        assert(st[i + 1] == s);
        match s {
            AgentStatus::Working => {
                working = true;
            },
            AgentStatus::Error => {
                error = true;
            },
            AgentStatus::Waiting => {
                waiting = true;
            },
            AgentStatus::Idle => {},
        }
        i += 1;
    }
    if working {
        AgentStatus::Working
    } else if error {
        AgentStatus::Error
    } else if waiting {
        AgentStatus::Waiting
    } else {
        AgentStatus::Idle
    }
}

fn group_latest<'a, T>(parent: &'a Member<T>, children: &'a Vec<Member<T>>) -> (r: &'a str)
    ensures
        is_latest(r@, activities(*parent, children@)),
{
    let ghost acts = activities(*parent, children@);
    let mut best: &str = parent.last_activity.as_str();
    let mut i: usize = 0;
    assert(acts[0] == best@);
    proof {
        lemma_lex_irreflexive(best@);
    }
    while i < children.len()
        invariant
            i <= children@.len(),
            acts == activities(*parent, children@),
            acts.len() == children@.len() + 1,
            exists|j: int| 0 <= j < i + 1 && acts[j] == best@,
            forall|j: int| 0 <= j < i + 1 ==> !lex_lt(best@, #[trigger] acts[j]),
        decreases children@.len() - i,
    {
        let c = children[i].last_activity.as_str();
        assert(acts[i + 1] == c@);
        if str_lt(best, c) {
            proof {
                assert forall|j: int| 0 <= j < i + 2 implies !lex_lt(c@, #[trigger] acts[j]) by {
                    if j < i + 1 {
                        if lex_lt(c@, acts[j]) {
                            lemma_lex_transitive(best@, c@, acts[j]);
                        }
                    } else {
                        lemma_lex_irreflexive(c@);
                    }
                }
            }
            best = c;
        } else {
            proof {
                lemma_lex_total(best@, c@);
                if lex_lt(best@, c@) {
                } else if best@ == c@ {
                    lemma_lex_irreflexive(c@);
                }
            }
        }
        i += 1;
    }
    best
}

impl<T> AgentGroup<T> {
    /// The group's headline status (see `aggregate`).
    pub fn aggregate_status(&self) -> (r: AgentStatus)
        ensures
            r == aggregate(statuses(self.parent, self.children@)),
    {
        group_status(&self.parent, &self.children)
    }

    /// The latest activity time among the group's members.
    pub fn last_activity(&self) -> (r: &str)
        ensures
            r@ == latest(activities(self.parent, self.children@)),
    {
        let r = group_latest(&self.parent, &self.children);
        proof {
            lemma_latest_unique(r@, activities(self.parent, self.children@));
        }
        r
    }
}

// ---------------------------------------------------------------- filter

pub open spec fn admitted<T>(children: Seq<Member<T>>, f: Filter) -> Seq<Member<T>> {
    children.filter(|c: Member<T>| filter_admits(f, c.status))
}

/// The groups a filter keeps: each group's sub-agents cut to those that
/// match, and a group kept when its parent or a remaining sub-agent
/// matches (a non-matching parent stays as context for its sub-agents).
pub open spec fn filtered<T>(gs: Seq<GroupView<T>>, f: Filter) -> Seq<GroupView<T>>
    decreases gs.len(),
{
    if gs.len() == 0 {
        Seq::empty()
    } else {
        let rest = filtered(gs.drop_last(), f);
        let g = gs.last();
        let kids = admitted(g.children, f);
        if filter_admits(f, g.parent.status) || kids.len() > 0 {
            rest.push(GroupView { parent: g.parent, children: kids })
        } else {
            rest
        }
    }
}

pub open spec fn group_views<T>(gs: Seq<AgentGroup<T>>) -> Seq<GroupView<T>> {
    gs.map_values(|g: AgentGroup<T>| g@)
}

fn keep_admitted<T>(children: Vec<Member<T>>, f: Filter) -> (r: Vec<Member<T>>)
    ensures
        r@ == admitted(children@, f),
{
    let ghost c0 = children@;
    let ghost total = c0.len();
    assert(children@.len() == children.len());
    let mut rest = children;
    let mut out: Vec<Member<T>> = Vec::new();
    let mut k: usize = 0;
    assert(c0.subrange(0, total as int) =~= c0);
    assert(c0.take(0).filter(|c: Member<T>| filter_admits(f, c.status)) =~= Seq::<Member<T>>::empty());
    while rest.len() > 0
        invariant
            total == c0.len(),
            total <= usize::MAX,
            k + rest@.len() == total,
            rest@ == c0.subrange(k as int, total as int),
            out@ == c0.take(k as int).filter(|c: Member<T>| filter_admits(f, c.status)),
        decreases rest@.len(),
    {
        let x = rest.remove(0);
        proof {
            assert(x == c0[k as int]);
            lemma_filter_step(c0, |c: Member<T>| filter_admits(f, c.status), k as int);
        }
        if f.matches(x.status) {
            out.push(x);
        }
        k += 1;
        assert(rest@ =~= c0.subrange(k as int, total as int));
    }
    assert(c0.take(total as int) =~= c0);
    out
}

/// Applies a filter to built groups (see `filtered`).
pub fn apply_filter<T>(groups: Vec<AgentGroup<T>>, filter: Filter) -> (r: Vec<AgentGroup<T>>)
    ensures
        group_views(r@) == filtered(group_views(groups@), filter),
{
    let ghost g0 = group_views(groups@);
    let ghost raw = groups@;
    let ghost total = raw.len();
    assert(groups@.len() == groups.len());
    let mut rest = groups;
    let mut out: Vec<AgentGroup<T>> = Vec::new();
    let mut k: usize = 0;
    assert(raw.subrange(0, total as int) =~= raw);
    assert(group_views(out@) =~= filtered(g0.take(0), filter));
    while rest.len() > 0
        invariant
            total == raw.len(),
            total <= usize::MAX,
            g0 == group_views(raw),
            k + rest@.len() == total,
            rest@ == raw.subrange(k as int, total as int),
            group_views(out@) == filtered(g0.take(k as int), filter),
        decreases rest@.len(),
    {
        let g = rest.remove(0);
        proof {
            assert(g == raw[k as int]);
            assert(g0.take(k + 1).drop_last() =~= g0.take(k as int));
            assert(g0.take(k + 1).last() == g@);
        }
        let parent_match = filter.matches(g.parent.status);
        let kids = keep_admitted(g.children, filter);
        if parent_match || kids.len() > 0 {
            let ghost before = out@;
            out.push(AgentGroup { parent: g.parent, children: kids });
            assert(group_views(out@) =~= group_views(before).push(out@[before.len() as int]@));
        }
        k += 1;
        assert(rest@ =~= raw.subrange(k as int, total as int));
    }
    assert(g0.take(total as int) =~= g0);
    out
}

// ---------------------------------------------------------------- grouping

/// Some agent of `agents` has the session id `id`.
pub open spec fn has_session<T>(agents: Seq<Member<T>>, id: Seq<char>) -> bool {
    exists|j: int| 0 <= j < agents.len() && #[trigger] agents[j].session_id@ == id
}

/// `a` heads a group whatever else is present: it names no parent, names
/// itself, or names one that is not present.
pub open spec fn is_top<T>(agents: Seq<Member<T>>, a: Member<T>) -> bool {
    !(a.parent_id matches Some(p) && p@ != a.session_id@ && has_session(agents, p@))
}

/// `a` is the sub-agent of a present agent that heads a group. A sub-agent
/// of a sub-agent, or an agent naming itself, is not: it heads a group of
/// its own, so no agent is lost.
pub open spec fn is_child_in<T>(agents: Seq<Member<T>>, a: Member<T>) -> bool {
    a.parent_id matches Some(p) && p@ != a.session_id@ && exists|j: int|
        0 <= j < agents.len() && #[trigger] agents[j].session_id@ == p@ && is_top(agents, agents[j])
}

pub open spec fn parent_is<T>(a: Member<T>, id: Seq<char>) -> bool {
    a.parent_id matches Some(p) && p@ == id
}

/// The agents heading a group: all but the sub-agents (see `is_child_in`),
/// in input order.
pub open spec fn roots_of<T>(agents: Seq<Member<T>>) -> Seq<Member<T>> {
    agents.filter(|a: Member<T>| !is_child_in(agents, a))
}

pub open spec fn kids_of<T>(agents: Seq<Member<T>>) -> Seq<Member<T>> {
    agents.filter(|a: Member<T>| is_child_in(agents, a))
}

/// The sub-agents of the `k`-th root, in input order; a root whose id an
/// earlier root already has gets none.
pub open spec fn claimed<T>(agents: Seq<Member<T>>, k: int) -> Seq<Member<T>> {
    let rs = roots_of(agents);
    if exists|j: int| 0 <= j < k && #[trigger] rs[j].session_id@ == rs[k].session_id@ {
        Seq::empty()
    } else {
        kids_of(agents).filter(|a: Member<T>| parent_is(a, rs[k].session_id@))
    }
}

/// Sub-agents are listed most recent first.
pub open spec fn child_keys<T>(cs: Seq<Member<T>>) -> Seq<(u8, Seq<char>)> {
    cs.map_values(|c: Member<T>| (0u8, c.last_activity@))
}

/// Groups are listed by the rank of their status (Waiting, Error, Working,
/// Idle), then most recent first.
pub open spec fn group_key<T>(parent: Member<T>, children: Seq<Member<T>>) -> (u8, Seq<char>) {
    (status_rank(aggregate(statuses(parent, children))), latest(activities(parent, children)))
}

pub open spec fn root_keys<T>(agents: Seq<Member<T>>) -> Seq<(u8, Seq<char>)> {
    Seq::new(roots_of(agents).len(), |k: int| group_key(roots_of(agents)[k], claimed(agents, k)))
}

/// `out` is `input` in stable most-recent-first order.
pub open spec fn is_sorted_children<T>(input: Seq<Member<T>>, out: Seq<Member<T>>) -> bool {
    exists|perm: Seq<int>|
        is_stable_order(child_keys(input), perm) && out.len() == perm.len() && forall|m: int|
            0 <= m < out.len() ==> #[trigger] out[m] == input[perm[m]]
}

proof fn lemma_filter_ext<A>(s: Seq<A>, p: spec_fn(A) -> bool, q: spec_fn(A) -> bool)
    requires
        forall|i: int| 0 <= i < s.len() ==> p(#[trigger] s[i]) == q(s[i]),
    ensures
        s.filter(p) == s.filter(q),
    decreases s.len(),
{
    reveal(Seq::filter);
    if s.len() > 0 {
        lemma_filter_ext(s.drop_last(), p, q);
        assert(p(s[s.len() - 1]) == q(s[s.len() - 1]));
    }
}

proof fn lemma_filter_filter<A>(s: Seq<A>, p: spec_fn(A) -> bool, q: spec_fn(A) -> bool)
    ensures
        s.filter(p).filter(q) == s.filter(|x: A| p(x) && q(x)),
    decreases s.len(),
{
    reveal(Seq::filter);
    if s.len() > 0 {
        lemma_filter_filter(s.drop_last(), p, q);
        let x = s.last();
        let fp = s.drop_last().filter(p);
        if p(x) {
            assert(fp.push(x).drop_last() =~= fp);
        }
    }
}

pub proof fn lemma_filter_step<A>(s: Seq<A>, p: spec_fn(A) -> bool, k: int)
    requires
        0 <= k < s.len(),
    ensures
        s.take(k + 1).filter(p) == if p(s[k]) {
            s.take(k).filter(p).push(s[k])
        } else {
            s.take(k).filter(p)
        },
{
    reveal(Seq::filter);
    assert(s.take(k + 1).drop_last() =~= s.take(k));
}

/// Whether some agent of `ids` has session id `id`.
fn present(ids: &Vec<String>, id: &str) -> (r: bool)
    ensures
        r == exists|j: int| 0 <= j < ids@.len() && #[trigger] ids@[j]@ == id@,
{
    let mut j: usize = 0;
    while j < ids.len()
        invariant
            j <= ids@.len(),
            forall|m: int| 0 <= m < j ==> #[trigger] ids@[m]@ != id@,
        decreases ids@.len() - j,
    {
        if str_eq(ids[j].as_str(), id) {
            return true;
        }
        j += 1;
    }
    false
}

fn has_parent_in<T>(ids: &Vec<String>, a: &Member<T>) -> (r: bool)
    ensures
        r == (a.parent_id matches Some(p) && exists|j: int|
            0 <= j < ids@.len() && #[trigger] ids@[j]@ == p@),
{
    match &a.parent_id {
        Some(p) => present(ids, p.as_str()),
        None => false,
    }
}

/// Whether `a` names a parent other than itself whose id is held at a
/// position of `ids` flagged in `tops`.
fn child_of_top<T>(ids: &Vec<String>, tops: &Vec<bool>, a: &Member<T>) -> (r: bool)
    requires
        ids@.len() == tops@.len(),
    ensures
        r == (a.parent_id matches Some(p) && p@ != a.session_id@ && exists|j: int|
            0 <= j < ids@.len() && #[trigger] ids@[j]@ == p@ && tops@[j]),
{
    match &a.parent_id {
        Some(p) => {
            if str_eq(p.as_str(), a.session_id.as_str()) {
                return false;
            }
            let mut j: usize = 0;
            while j < ids.len()
                invariant
                    j <= ids@.len(),
                    ids@.len() == tops@.len(),
                    a.parent_id == Some(*p),
                    p@ != a.session_id@,
                    forall|m: int| 0 <= m < j ==> !(#[trigger] ids@[m]@ == p@ && tops@[m]),
                decreases ids@.len() - j,
            {
                if tops[j] && str_eq(ids[j].as_str(), p.as_str()) {
                    assert(ids@[j as int]@ == p@ && tops@[j as int]);
                    return true;
                }
                j += 1;
            }
            false
        },
        None => false,
    }
}

fn is_parent<T>(a: &Member<T>, id: &str) -> (r: bool)
    ensures
        r == parent_is(*a, id@),
{
    match &a.parent_id {
        Some(p) => str_eq(p.as_str(), id),
        None => false,
    }
}

/// Splits `rest` into the sub-agents of `id` and the others, both in order.
fn take_children<T>(rest: Vec<Member<T>>, id: &str) -> (r: (Vec<Member<T>>, Vec<Member<T>>))
    ensures
        r.0@ == rest@.filter(|a: Member<T>| parent_is(a, id@)),
        r.1@ == rest@.filter(|a: Member<T>| !parent_is(a, id@)),
{
    let ghost s0 = rest@;
    let ghost total = s0.len();
    let ghost p = |a: Member<T>| parent_is(a, id@);
    let ghost q = |a: Member<T>| !parent_is(a, id@);
    assert(rest@.len() == rest.len());
    let mut src = rest;
    let mut mine: Vec<Member<T>> = Vec::new();
    let mut other: Vec<Member<T>> = Vec::new();
    let mut k: usize = 0;
    assert(s0.subrange(0, total as int) =~= s0);
    assert(s0.take(0).filter(p) =~= Seq::<Member<T>>::empty());
    assert(s0.take(0).filter(q) =~= Seq::<Member<T>>::empty());
    while src.len() > 0
        invariant
            total == s0.len(),
            total <= usize::MAX,
            k + src@.len() == total,
            src@ == s0.subrange(k as int, total as int),
            p == (|a: Member<T>| parent_is(a, id@)),
            q == (|a: Member<T>| !parent_is(a, id@)),
            mine@ == s0.take(k as int).filter(p),
            other@ == s0.take(k as int).filter(q),
        decreases src@.len(),
    {
        let x = src.remove(0);
        proof {
            assert(x == s0[k as int]);
            lemma_filter_step(s0, p, k as int);
            lemma_filter_step(s0, q, k as int);
        }
        if is_parent(&x, id) {
            mine.push(x);
        } else {
            other.push(x);
        }
        k += 1;
        assert(src@ =~= s0.subrange(k as int, total as int));
    }
    assert(s0.take(total as int) =~= s0);
    (mine, other)
}

/// Builds the grid's groups from a flat list of agents: every sub-agent of
/// a present agent that heads a group (see `is_child_in`) is listed under
/// the first root with that id (see `claimed`), every other agent heads a
/// group of its own; sub-agents are listed
/// most recent first and groups by status rank, then most recent first,
/// both sorts stable.
pub fn build_groups<T>(agents: Vec<Member<T>>) -> (r: Vec<AgentGroup<T>>)
    ensures
        exists|gperm: Seq<int>|
            {
                &&& is_stable_order(root_keys(agents@), gperm)
                &&& r@.len() == gperm.len()
                &&& forall|i: int|
                    0 <= i < r@.len() ==> {
                        &&& (#[trigger] r@[i]).parent == roots_of(agents@)[gperm[i]]
                        &&& is_sorted_children(claimed(agents@, gperm[i]), r@[i].children@)
                    }
            },
{
    let ghost a0 = agents@;
    let ghost total = a0.len();
    let ghost root_pred = |a: Member<T>| !is_child_in(a0, a);
    let ghost kid_pred = |a: Member<T>| is_child_in(a0, a);
    assert(agents@.len() == agents.len());
    // The ids present.
    let mut ids: Vec<String> = Vec::new();
    let mut i: usize = 0;
    while i < agents.len()
        invariant
            i <= agents@.len(),
            agents@ == a0,
            ids@.len() == i,
            forall|j: int| 0 <= j < i ==> #[trigger] ids@[j]@ == a0[j].session_id@,
        decreases agents@.len() - i,
    {
        ids.push(owned(agents[i].session_id.as_str()));
        i += 1;
    }
    assert forall|p: Seq<char>| has_session(a0, p) == exists|j: int|
        0 <= j < ids@.len() && #[trigger] ids@[j]@ == p by {
        if has_session(a0, p) {
            let j = choose|j: int| 0 <= j < a0.len() && #[trigger] a0[j].session_id@ == p;
            assert(ids@[j]@ == p);
        }
    }
    // Which agents head a group whatever else is present.
    let mut tops: Vec<bool> = Vec::new();
    let mut t: usize = 0;
    while t < agents.len()
        invariant
            t <= agents@.len(),
            agents@ == a0,
            ids@.len() == a0.len(),
            tops@.len() == t,
            forall|p: Seq<char>| has_session(a0, p) == exists|j: int|
                0 <= j < ids@.len() && #[trigger] ids@[j]@ == p,
            forall|j: int| 0 <= j < t ==> #[trigger] tops@[j] == is_top(a0, a0[j]),
        decreases agents@.len() - t,
    {
        let a = &agents[t];
        let top = !(has_parent_in(&ids, a) && !is_parent(a, a.session_id.as_str()));
        proof {
            if a.parent_id is Some {
                let p = a.parent_id->0;
                assert(has_session(a0, p@) == exists|j: int|
                    0 <= j < ids@.len() && #[trigger] ids@[j]@ == p@);
            }
        }
        tops.push(top);
        t += 1;
    }
    assert forall|x: Member<T>| #[trigger] is_child_in(a0, x) == (x.parent_id matches Some(p) && p@
        != x.session_id@ && exists|j: int| 0 <= j < ids@.len() && #[trigger] ids@[j]@ == p@ && tops@[j]) by {
        if x.parent_id is Some {
            let p = x.parent_id->0;
            if exists|j: int| 0 <= j < a0.len() && #[trigger] a0[j].session_id@ == p@ && is_top(a0, a0[j]) {
                let j = choose|j: int| 0 <= j < a0.len() && #[trigger] a0[j].session_id@ == p@ && is_top(a0, a0[j]);
                assert(ids@[j]@ == p@ && tops@[j]);
            }
            if exists|j: int| 0 <= j < ids@.len() && #[trigger] ids@[j]@ == p@ && tops@[j] {
                let j = choose|j: int| 0 <= j < ids@.len() && #[trigger] ids@[j]@ == p@ && tops@[j];
                assert(a0[j].session_id@ == p@ && is_top(a0, a0[j]));
            }
        }
    }
    // Roots and sub-agents, in input order.
    let mut src = agents;
    let mut roots: Vec<Member<T>> = Vec::new();
    let mut kids: Vec<Member<T>> = Vec::new();
    let mut k: usize = 0;
    assert(a0.subrange(0, total as int) =~= a0);
    assert(a0.take(0).filter(root_pred) =~= Seq::<Member<T>>::empty());
    assert(a0.take(0).filter(kid_pred) =~= Seq::<Member<T>>::empty());
    while src.len() > 0
        invariant
            total == a0.len(),
            total <= usize::MAX,
            k + src@.len() == total,
            src@ == a0.subrange(k as int, total as int),
            root_pred == (|a: Member<T>| !is_child_in(a0, a)),
            kid_pred == (|a: Member<T>| is_child_in(a0, a)),
            ids@.len() == tops@.len(),
            forall|x: Member<T>| #[trigger] is_child_in(a0, x) == (x.parent_id matches Some(p) && p@
                != x.session_id@ && exists|j: int| 0 <= j < ids@.len() && #[trigger] ids@[j]@ == p@ && tops@[j]),
            roots@ == a0.take(k as int).filter(root_pred),
            kids@ == a0.take(k as int).filter(kid_pred),
        decreases src@.len(),
    {
        let x = src.remove(0);
        proof {
            assert(x == a0[k as int]);
            lemma_filter_step(a0, root_pred, k as int);
            lemma_filter_step(a0, kid_pred, k as int);
        }
        if child_of_top(&ids, &tops, &x) {
            kids.push(x);
        } else {
            roots.push(x);
        }
        k += 1;
        assert(src@ =~= a0.subrange(k as int, total as int));
    }
    assert(a0.take(total as int) =~= a0);
    let ghost rs = roots_of(a0);
    let ghost ks = kids_of(a0);
    assert(roots@ == rs);
    assert(kids@ == ks);
    // One group per root, with the sub-agents it claims.
    let ghost nroots = rs.len();
    assert(roots@.len() == roots.len());
    let mut rest_roots = roots;
    let mut rest_kids = kids;
    let mut groups: Vec<AgentGroup<T>> = Vec::new();
    let mut gkeys: Vec<(u8, String)> = Vec::new();
    let mut n: usize = 0;
    assert(rs.subrange(0, nroots as int) =~= rs);
    proof {
        lemma_filter_ext(
            ks,
            |a: Member<T>| !(exists|j: int| 0 <= j < 0 && parent_is(a, #[trigger] rs[j].session_id@)),
            |a: Member<T>| true,
        );
        assert(ks.filter(|a: Member<T>| true) =~= ks) by {
            lemma_filter_all(ks);
        }
    }
    while rest_roots.len() > 0
        invariant
            nroots == rs.len(),
            nroots <= usize::MAX,
            rs == roots_of(a0),
            ks == kids_of(a0),
            n + rest_roots@.len() == nroots,
            rest_roots@ == rs.subrange(n as int, nroots as int),
            rest_kids@ == ks.filter(
                |a: Member<T>| !(exists|j: int| 0 <= j < n && parent_is(a, #[trigger] rs[j].session_id@)),
            ),
            groups@.len() == n,
            gkeys@.len() == n,
            forall|m: int| 0 <= m < n ==> (#[trigger] groups@[m]).parent == rs[m],
            forall|m: int|
                0 <= m < n ==> is_sorted_children(claimed(a0, m), (#[trigger] groups@[m]).children@),
            forall|m: int| 0 <= m < n ==> #[trigger] key_views(gkeys@)[m] == root_keys(a0)[m],
        decreases rest_roots@.len(),
    {
        let root = rest_roots.remove(0);
        assert(root == rs[n as int]);
        let ghost id = root.session_id@;
        let ghost before = |a: Member<T>|
            !(exists|j: int| 0 <= j < n && parent_is(a, #[trigger] rs[j].session_id@));
        let ghost after = |a: Member<T>|
            !(exists|j: int| 0 <= j < n + 1 && parent_is(a, #[trigger] rs[j].session_id@));
        let ghost is_mine = |a: Member<T>| parent_is(a, id);
        let ghost not_mine = |a: Member<T>| !parent_is(a, id);
        let (mine, other) = take_children(rest_kids, root.session_id.as_str());
        proof {
            lemma_filter_filter(ks, before, is_mine);
            lemma_filter_filter(ks, before, not_mine);
            lemma_filter_ext(ks, |a: Member<T>| before(a) && not_mine(a), after);
            if exists|j: int| 0 <= j < n && #[trigger] rs[j].session_id@ == id {
                let j0 = choose|j: int| 0 <= j < n && #[trigger] rs[j].session_id@ == id;
                lemma_filter_ext(ks, |a: Member<T>| before(a) && is_mine(a), |a: Member<T>| false);
                lemma_filter_none(ks);
                assert(claimed(a0, n as int) == Seq::<Member<T>>::empty());
            } else {
                lemma_filter_ext(ks, |a: Member<T>| before(a) && is_mine(a), is_mine);
                assert(claimed(a0, n as int) == ks.filter(is_mine));
            }
            assert(mine@ == claimed(a0, n as int));
        }
        // The group's sort key, from its members in any order.
        let status = group_status(&root, &mine);
        let last = owned(group_latest(&root, &mine));
        proof {
            lemma_latest_unique(last@, activities(root, mine@));
        }
        let key = (status.priority(), last);
        // Sub-agents, most recent first.
        let mut ckeys: Vec<(u8, String)> = Vec::new();
        let mut c: usize = 0;
        while c < mine.len()
            invariant
                c <= mine@.len(),
                ckeys@.len() == c,
                forall|m: int| 0 <= m < c ==> #[trigger] key_views(ckeys@)[m] == child_keys(mine@)[m],
            decreases mine@.len() - c,
        {
            let ghost before = ckeys@;
            ckeys.push((0, owned(mine[c].last_activity.as_str())));
            proof {
                assert(key_views(ckeys@)[c as int] == (0u8, mine@[c as int].last_activity@));
                assert(child_keys(mine@)[c as int] == (0u8, mine@[c as int].last_activity@));
                assert forall|m: int| 0 <= m < c implies #[trigger] key_views(ckeys@)[m] == key_views(before)[m] by {
                    assert(ckeys@[m] == before[m]);
                }
            }
            c += 1;
        }
        assert(key_views(ckeys@) =~= child_keys(mine@));
        let ghost mine_v = mine@;
        let children = sort_by_key(mine, ckeys);
        proof {
            let perm = choose|perm: Seq<int>|
                is_stable_order(key_views(ckeys@), perm) && children@.len() == perm.len() && forall|m: int|
                    0 <= m < children@.len() ==> #[trigger] children@[m] == mine_v[perm[m]];
            assert(is_sorted_children(mine_v, children@));
        }
        let ghost gk_before = key_views(gkeys@);
        groups.push(AgentGroup { parent: root, children });
        gkeys.push(key);
        proof {
            assert(key_views(gkeys@) =~= gk_before.push((key.0, key.1@)));
            assert(root_keys(a0)[n as int] == group_key(rs[n as int], claimed(a0, n as int)));
        }
        rest_kids = other;
        n += 1;
        assert(rest_roots@ =~= rs.subrange(n as int, nroots as int));
    }
    assert(root_keys(a0).len() == nroots);
    assert(key_views(gkeys@) =~= root_keys(a0));
    let ghost groups_v = groups@;
    let sorted = sort_by_key(groups, gkeys);
    proof {
        let gperm = choose|perm: Seq<int>|
            is_stable_order(key_views(gkeys@), perm) && sorted@.len() == perm.len() && forall|m: int|
                0 <= m < sorted@.len() ==> #[trigger] sorted@[m] == groups_v[perm[m]];
        assert forall|i: int| 0 <= i < sorted@.len() implies {
            &&& (#[trigger] sorted@[i]).parent == roots_of(a0)[gperm[i]]
            &&& is_sorted_children(claimed(a0, gperm[i]), sorted@[i].children@)
        } by {
            assert(sorted@[i] == groups_v[gperm[i]]);
            assert(0 <= gperm[i] < nroots);
        }
    }
    sorted
}

proof fn lemma_filter_all<A>(s: Seq<A>)
    ensures
        s.filter(|a: A| true) == s,
    decreases s.len(),
{
    reveal(Seq::filter);
    if s.len() > 0 {
        lemma_filter_all(s.drop_last());
        assert(s.drop_last().push(s.last()) =~= s);
    }
}

proof fn lemma_filter_none<A>(s: Seq<A>)
    ensures
        s.filter(|a: A| false) == Seq::<A>::empty(),
    decreases s.len(),
{
    reveal(Seq::filter);
    if s.len() > 0 {
        lemma_filter_none(s.drop_last());
    }
}

} // verus!
verus! {

proof fn lemma_admitted_all<T>(cs: Seq<Member<T>>)
    ensures
        admitted(cs, Filter::All) == cs,
{
    lemma_filter_ext(cs, |c: Member<T>| filter_admits(Filter::All, c.status), |c: Member<T>| true);
    lemma_filter_all(cs);
}

/// Law: the `All` filter keeps every group, with all its sub-agents.
pub proof fn law_filter_all_keeps_everything<T>(gs: Seq<GroupView<T>>)
    ensures
        filtered(gs, Filter::All) == gs,
    decreases gs.len(),
{
    if gs.len() > 0 {
        law_filter_all_keeps_everything(gs.drop_last());
        lemma_admitted_all(gs.last().children);
        assert(gs.drop_last().push(gs.last()) =~= gs);
    }
}

proof fn lemma_admitted_twice<T>(cs: Seq<Member<T>>, f: Filter)
    ensures
        admitted(admitted(cs, f), f) == admitted(cs, f),
{
    let p = |c: Member<T>| filter_admits(f, c.status);
    lemma_filter_filter(cs, p, p);
    lemma_filter_ext(cs, |x: Member<T>| p(x) && p(x), p);
}

/// Law: filtering again with the same filter changes nothing.
pub proof fn law_filter_idempotent<T>(gs: Seq<GroupView<T>>, f: Filter)
    ensures
        filtered(filtered(gs, f), f) == filtered(gs, f),
    decreases gs.len(),
{
    if gs.len() > 0 {
        law_filter_idempotent(gs.drop_last(), f);
        let rest = filtered(gs.drop_last(), f);
        let g = gs.last();
        let kids = admitted(g.children, f);
        lemma_admitted_twice(g.children, f);
        if filter_admits(f, g.parent.status) || kids.len() > 0 {
            let once = rest.push(GroupView { parent: g.parent, children: kids });
            assert(once.drop_last() =~= rest);
        }
    }
}

} // verus!
verus! {

/// Law: no group is lost by ordering. With the order `build_groups`
/// reports, every root (each agent that is not a sub-agent of a present
/// group head, orphans included) heads exactly one group.
pub proof fn law_grouping_loses_no_agent<T>(
    agents: Seq<Member<T>>,
    gperm: Seq<int>,
    k: int,
)
    requires
        is_stable_order(root_keys(agents), gperm),
        0 <= k < roots_of(agents).len(),
    ensures
        exists|i: int| 0 <= i < gperm.len() && gperm[i] == k,
        forall|i: int, j: int| 0 <= i < j < gperm.len() ==> gperm[i] != gperm[j],
{
    crate::order::lemma_stable_order_covers(root_keys(agents), gperm);
    assert(crate::order::lists(gperm, k));
}

/// Law: a sub-agent list in stable most-recent-first order holds every
/// claimed sub-agent.
pub proof fn law_children_lose_no_agent<T>(input: Seq<Member<T>>, out: Seq<Member<T>>, m: int)
    requires
        is_sorted_children(input, out),
        0 <= m < input.len(),
    ensures
        exists|i: int| 0 <= i < out.len() && out[i] == input[m],
{
    let perm = choose|perm: Seq<int>|
        is_stable_order(child_keys(input), perm) && out.len() == perm.len() && forall|x: int|
            0 <= x < out.len() ==> #[trigger] out[x] == input[perm[x]];
    crate::order::lemma_stable_order_covers(child_keys(input), perm);
    assert(crate::order::lists(perm, m));
    let i = choose|i: int| 0 <= i < perm.len() && perm[i] == m;
    assert(out[i] == input[perm[i]]);
}


proof fn lemma_first_root<T>(rs: Seq<Member<T>>, id: Seq<char>, k0: int) -> (k: int)
    requires
        0 <= k0 < rs.len(),
        rs[k0].session_id@ == id,
    ensures
        0 <= k <= k0,
        rs[k].session_id@ == id,
        forall|j: int| 0 <= j < k ==> (#[trigger] rs[j]).session_id@ != id,
    decreases k0,
{
    if exists|j: int| 0 <= j < k0 && (#[trigger] rs[j]).session_id@ == id {
        let j = choose|j: int| 0 <= j < k0 && (#[trigger] rs[j]).session_id@ == id;
        lemma_first_root(rs, id, j)
    } else {
        k0
    }
}

proof fn lemma_claimed_are_kids<T>(agents: Seq<Member<T>>, k: int, x: Member<T>)
    requires
        0 <= k < roots_of(agents).len(),
        claimed(agents, k).contains(x),
    ensures
        is_child_in(agents, x),
        parent_is(x, roots_of(agents)[k].session_id@),
{
    broadcast use vstd::seq_lib::group_filter_ensures;
    let rs = roots_of(agents);
    let ks = kids_of(agents);
    let q = |a: Member<T>| parent_is(a, rs[k].session_id@);
    let kp = |a: Member<T>| is_child_in(agents, a);
    if exists|j: int| 0 <= j < k && #[trigger] rs[j].session_id@ == rs[k].session_id@ {
        assert(claimed(agents, k) == Seq::<Member<T>>::empty());
    } else {
        assert(claimed(agents, k) == ks.filter(q));
        let i = choose|i: int| 0 <= i < ks.filter(q).len() && ks.filter(q)[i] == x;
        assert(q(ks.filter(q)[i]));
        ks.lemma_filter_contains_rev(q, x);
        let i2 = choose|i: int| 0 <= i < ks.len() && ks[i] == x;
        assert(ks == agents.filter(kp));
        assert(kp(agents.filter(kp)[i2]));
    }
}

/// Law: grouping loses no agent and places none twice. Every agent either
/// heads a group (it is among `roots_of`) and is claimed by no group, or is
/// a sub-agent claimed by exactly one group, the group of its parent. With
/// `law_grouping_loses_no_agent` and `law_children_lose_no_agent`, every
/// agent shows up in what `build_groups` returns, in one group only.
pub proof fn law_every_agent_in_one_group<T>(agents: Seq<Member<T>>, m: int)
    requires
        0 <= m < agents.len(),
    ensures
        !is_child_in(agents, agents[m]) ==> {
            &&& roots_of(agents).contains(agents[m])
            &&& forall|k: int| 0 <= k < roots_of(agents).len() ==> !(#[trigger] claimed(agents, k)).contains(agents[m])
        },
        is_child_in(agents, agents[m]) ==> {
            &&& !roots_of(agents).contains(agents[m])
            &&& exists|k: int| 0 <= k < roots_of(agents).len() && (#[trigger] claimed(agents, k)).contains(agents[m])
            &&& forall|k1: int, k2: int|
                0 <= k1 < roots_of(agents).len() && 0 <= k2 < roots_of(agents).len()
                    && (#[trigger] claimed(agents, k1)).contains(agents[m])
                    && (#[trigger] claimed(agents, k2)).contains(agents[m]) ==> k1 == k2
        },
{
    broadcast use vstd::seq_lib::group_filter_ensures;
    let a = agents[m];
    let rs = roots_of(agents);
    let ks = kids_of(agents);
    let rp = |x: Member<T>| !is_child_in(agents, x);
    let kp = |x: Member<T>| is_child_in(agents, x);
    if !is_child_in(agents, a) {
        agents.lemma_filter_contains(rp, m);
        assert forall|k: int| 0 <= k < rs.len() implies !(#[trigger] claimed(agents, k)).contains(a) by {
            if claimed(agents, k).contains(a) {
                lemma_claimed_are_kids(agents, k, a);
            }
        }
    } else {
        if rs.contains(a) {
            let i = choose|i: int| 0 <= i < rs.len() && rs[i] == a;
            assert(rp(agents.filter(rp)[i]));
        }
        let p = a.parent_id->0;
        let j = choose|j: int| 0 <= j < agents.len() && #[trigger] agents[j].session_id@ == p@ && is_top(agents, agents[j]);
        assert(!is_child_in(agents, agents[j]));
        agents.lemma_filter_contains(rp, j);
        let k0 = choose|k: int| 0 <= k < rs.len() && rs[k] == agents[j];
        let kf = lemma_first_root(rs, p@, k0);
        agents.lemma_filter_contains(kp, m);
        let q = |x: Member<T>| parent_is(x, rs[kf].session_id@);
        assert(q(a));
        let i = choose|i: int| 0 <= i < ks.len() && ks[i] == a;
        ks.lemma_filter_contains(q, i);
        assert(claimed(agents, kf) == ks.filter(q));
        assert(claimed(agents, kf).contains(a));
        assert forall|k1: int, k2: int|
            0 <= k1 < rs.len() && 0 <= k2 < rs.len()
                && (#[trigger] claimed(agents, k1)).contains(a)
                && (#[trigger] claimed(agents, k2)).contains(a) implies k1 == k2 by {
            lemma_claimed_are_kids(agents, k1, a);
            lemma_claimed_are_kids(agents, k2, a);
            assert(rs[k1].session_id@ == p@);
            assert(rs[k2].session_id@ == p@);
            if k1 < k2 {
                assert(claimed(agents, k2) == Seq::<Member<T>>::empty());
            } else if k2 < k1 {
                assert(claimed(agents, k1) == Seq::<Member<T>>::empty());
            }
        }
    }
}


/// The groups whose headline status is `st`, in order.
pub open spec fn with_status<T>(gs: Seq<GroupView<T>>, st: AgentStatus) -> Seq<GroupView<T>> {
    gs.filter(|g: GroupView<T>| aggregate(statuses(g.parent, g.children)) == st)
}

/// The groups whose headline status is not Idle, in order.
pub open spec fn not_idle<T>(gs: Seq<GroupView<T>>) -> Seq<GroupView<T>> {
    gs.filter(|g: GroupView<T>| aggregate(statuses(g.parent, g.children)) != AgentStatus::Idle)
}

/// How many groups show status `st`: the grid's Working, Waiting and Idle
/// counters.
pub fn count_with_status<T>(groups: &Vec<AgentGroup<T>>, st: AgentStatus) -> (r: usize)
    ensures
        r == with_status(group_views(groups@), st).len(),
{
    let ghost gv = group_views(groups@);
    let ghost p = |g: GroupView<T>| aggregate(statuses(g.parent, g.children)) == st;
    let mut n: usize = 0;
    let mut i: usize = 0;
    assert(gv.take(0).filter(p) =~= Seq::<GroupView<T>>::empty());
    while i < groups.len()
        invariant
            i <= groups@.len(),
            gv == group_views(groups@),
            p == (|g: GroupView<T>| aggregate(statuses(g.parent, g.children)) == st),
            n == gv.take(i as int).filter(p).len(),
            n <= i,
        decreases groups.len() - i,
    {
        proof {
            lemma_filter_step(gv, p, i as int);
            assert(gv[i as int] == groups@[i as int]@);
        }
        if groups[i].aggregate_status() == st {
            n += 1;
        }
        i += 1;
    }
    assert(gv.take(groups@.len() as int) =~= gv);
    n
}

/// Splits filtered groups into the grid's two sections: those not Idle,
/// then the Idle ones, each in order.
pub fn split_active<T>(groups: Vec<AgentGroup<T>>) -> (r: (Vec<AgentGroup<T>>, Vec<AgentGroup<T>>))
    ensures
        group_views(r.0@) == not_idle(group_views(groups@)),
        group_views(r.1@) == with_status(group_views(groups@), AgentStatus::Idle),
{
    let ghost g0 = group_views(groups@);
    let ghost raw = groups@;
    let ghost total = raw.len();
    let ghost act = |g: GroupView<T>| aggregate(statuses(g.parent, g.children)) != AgentStatus::Idle;
    let ghost idl = |g: GroupView<T>| aggregate(statuses(g.parent, g.children)) == AgentStatus::Idle;
    assert(groups@.len() == groups.len());
    let mut rest = groups;
    let mut active: Vec<AgentGroup<T>> = Vec::new();
    let mut idle: Vec<AgentGroup<T>> = Vec::new();
    let mut k: usize = 0;
    assert(raw.subrange(0, total as int) =~= raw);
    assert(g0.take(0).filter(act) =~= Seq::<GroupView<T>>::empty());
    assert(g0.take(0).filter(idl) =~= Seq::<GroupView<T>>::empty());
    assert(group_views(active@) =~= Seq::<GroupView<T>>::empty());
    assert(group_views(idle@) =~= Seq::<GroupView<T>>::empty());
    while rest.len() > 0
        invariant
            total == raw.len(),
            total <= usize::MAX,
            g0 == group_views(raw),
            k + rest@.len() == total,
            rest@ == raw.subrange(k as int, total as int),
            act == (|g: GroupView<T>| aggregate(statuses(g.parent, g.children)) != AgentStatus::Idle),
            idl == (|g: GroupView<T>| aggregate(statuses(g.parent, g.children)) == AgentStatus::Idle),
            group_views(active@) == g0.take(k as int).filter(act),
            group_views(idle@) == g0.take(k as int).filter(idl),
        decreases rest@.len(),
    {
        let g = rest.remove(0);
        proof {
            assert(g == raw[k as int]);
            assert(g0[k as int] == g@);
            lemma_filter_step(g0, act, k as int);
            lemma_filter_step(g0, idl, k as int);
        }
        let st = g.aggregate_status();
        if st == AgentStatus::Idle {
            let ghost before = idle@;
            idle.push(g);
            assert(group_views(idle@) =~= group_views(before).push(idle@[before.len() as int]@));
        } else {
            let ghost before = active@;
            active.push(g);
            assert(group_views(active@) =~= group_views(before).push(active@[before.len() as int]@));
        }
        k += 1;
        assert(rest@ =~= raw.subrange(k as int, total as int));
    }
    assert(g0.take(total as int) =~= g0);
    (active, idle)
}

/// How pressing a status is for a group's headline: a working member keeps
/// the group busy, then an error, then a member waiting for the user, and
/// idle least of all.
pub open spec fn urgency(s: AgentStatus) -> int {
    match s {
        AgentStatus::Working => 3,
        AgentStatus::Error => 2,
        AgentStatus::Waiting => 1,
        AgentStatus::Idle => 0,
    }
}

proof fn lemma_aggregate_most_urgent(st: Seq<AgentStatus>)
    requires
        st.len() > 0,
    ensures
        st.contains(aggregate(st)),
        forall|i: int| 0 <= i < st.len() ==> urgency(#[trigger] st[i]) <= urgency(aggregate(st)),
{
    let h = aggregate(st);
    if h == AgentStatus::Idle {
        assert(st[0] == AgentStatus::Idle);
    }
}

/// Law: a group's headline status is the most pressing status among all
/// its members, parent and sub-agents alike: some member has it, and no
/// member's status is more pressing (Working over Error over Waiting over
/// Idle). So a group where nobody works or fails but some member, parent
/// or sub-agent, waits is Waiting.
pub proof fn law_group_headline_is_most_urgent<T>(parent: Member<T>, children: Seq<Member<T>>)
    ensures
        ({
            let h = aggregate(statuses(parent, children));
            &&& (h == parent.status || exists|i: int|
                0 <= i < children.len() && (#[trigger] children[i]).status == h)
            &&& urgency(parent.status) <= urgency(h)
            &&& forall|i: int|
                0 <= i < children.len() ==> urgency((#[trigger] children[i]).status) <= urgency(h)
        }),
{
    let st = statuses(parent, children);
    lemma_aggregate_most_urgent(st);
    assert(st[0] == parent.status);
    assert forall|i: int| 0 <= i < children.len() implies urgency(
        (#[trigger] children[i]).status,
    ) <= urgency(aggregate(st)) by {
        assert(st[i + 1] == children[i].status);
    }
    let h = aggregate(st);
    let k = choose|k: int| 0 <= k < st.len() && st[k] == h;
    if k > 0 {
        assert(children[k - 1].status == st[k]);
    }
}

/// Law: the headline depends only on which statuses the members have, and
/// how many of each, not on which member holds which: members listed in
/// another order, or the parent's status swapped with a sub-agent's, give
/// the same headline.
pub proof fn law_headline_ignores_order(st1: Seq<AgentStatus>, st2: Seq<AgentStatus>)
    requires
        st1.to_multiset() == st2.to_multiset(),
    ensures
        aggregate(st1) == aggregate(st2),
{
    broadcast use vstd::seq_lib::group_to_multiset_ensures;
    assert forall|x: AgentStatus| st1.contains(x) <==> st2.contains(x) by {
        assert(st1.contains(x) <==> st1.to_multiset().count(x) > 0);
        assert(st2.contains(x) <==> st2.to_multiset().count(x) > 0);
    }
    if st1.len() > 0 {
        assert(st1.to_multiset().len() == st2.to_multiset().len());
        lemma_aggregate_most_urgent(st1);
        lemma_aggregate_most_urgent(st2);
        let h1 = aggregate(st1);
        let h2 = aggregate(st2);
        let i1 = choose|i: int| 0 <= i < st1.len() && st1[i] == h1;
        let i2 = choose|i: int| 0 <= i < st2.len() && st2[i] == h2;
        assert(st2.contains(h1));
        assert(st1.contains(h2));
        let j2 = choose|j: int| 0 <= j < st2.len() && st2[j] == h1;
        let j1 = choose|j: int| 0 <= j < st1.len() && st1[j] == h2;
        assert(urgency(st2[j2]) <= urgency(h2));
        assert(urgency(st1[j1]) <= urgency(h1));
    } else {
        assert(st2.len() == st2.to_multiset().len());
    }
}

} // verus!
