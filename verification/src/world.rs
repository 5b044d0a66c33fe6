//! The Office view's cast: which characters walk in, which leave, where a
//! newcomer is headed, and when a seated character changes animation, as
//! the agent list changes. Positions in flight, fading and frame timing
//! are continuous and kept by the window; this is the discrete part.

use vstd::prelude::*;
use crate::groups::lemma_filter_step;
use crate::layout::{desk_at, child_offset_from_parent, desk_grid, Desk, Facing, DOOR_X, DOOR_Y};
use crate::office::{anim_for, anim_for_spec, opt_view, AnimState};
use crate::order::{lex_lt, str_lt};
use crate::status::AgentStatus;
use crate::text::{owned, str_eq};

verus! {

/// What the Office view reads of one agent.
#[derive(Debug)]
pub struct AgentView {
    pub session_id: String,
    pub status: AgentStatus,
    pub current_tool: Option<String>,
    pub parent_id: Option<String>,
}

/// The discrete state of one character.
#[derive(Debug)]
pub struct Actor {
    pub session_id: String,
    pub status: AgentStatus,
    pub current_tool: Option<String>,
    /// Where the character is headed (or stands).
    pub target: (i32, i32),
    pub facing: Facing,
    /// The desk it holds; sub-agents stand beside their parent and hold none.
    pub desk_index: Option<usize>,
    pub anim: AnimState,
    /// Still walking to its spot; status animations wait until it arrives.
    pub walking_in: bool,
    /// Its agent went away or idle: it walks to the door and fades out.
    pub leaving: bool,
    /// Standing at its target (within half a pixel), as the window measured.
    pub at_target: bool,
    /// The last sync restarted its animation from frame 0.
    pub restarted: bool,
}

pub struct SnapView {
    pub id: Seq<char>,
    pub status: AgentStatus,
    pub tool: Option<Seq<char>>,
    pub parent: Option<Seq<char>>,
}

pub struct ActorView {
    pub id: Seq<char>,
    pub status: AgentStatus,
    pub tool: Option<Seq<char>>,
    pub target: (i32, i32),
    pub facing: Facing,
    pub desk: Option<usize>,
    pub anim: AnimState,
    pub walking_in: bool,
    pub leaving: bool,
    pub at_target: bool,
    pub restarted: bool,
}

pub open spec fn ostr(o: Option<String>) -> Option<Seq<char>> {
    match o {
        Some(s) => Some(s@),
        None => None,
    }
}

impl View for AgentView {
    type V = SnapView;

    open spec fn view(&self) -> SnapView {
        SnapView {
            id: self.session_id@,
            status: self.status,
            tool: ostr(self.current_tool),
            parent: ostr(self.parent_id),
        }
    }
}

impl View for Actor {
    type V = ActorView;

    open spec fn view(&self) -> ActorView {
        ActorView {
            id: self.session_id@,
            status: self.status,
            tool: ostr(self.current_tool),
            target: self.target,
            facing: self.facing,
            desk: self.desk_index,
            anim: self.anim,
            walking_in: self.walking_in,
            leaving: self.leaving,
            at_target: self.at_target,
            restarted: self.restarted,
        }
    }
}

pub open spec fn snap_views(s: Seq<AgentView>) -> Seq<SnapView> {
    s.map_values(|a: AgentView| a@)
}

pub open spec fn actor_views(s: Seq<Actor>) -> Seq<ActorView> {
    s.map_values(|a: Actor| a@)
}

/// A cast the view can hold: one character per session, desks among the
/// eight.
pub open spec fn well_formed(actors: Seq<ActorView>) -> bool {
    &&& forall|i: int, j: int|
        0 <= i < j < actors.len() ==> #[trigger] actors[i].id != #[trigger] actors[j].id
    &&& forall|i: int| 0 <= i < actors.len() ==> match (#[trigger] actors[i]).desk {
        Some(d) => d < 8,
        None => true,
    }
}

// ---------------------------------------------------------------- spec

/// The agents the office shows: all but the idle ones.
pub open spec fn shown(snaps: Seq<SnapView>) -> Seq<SnapView> {
    snaps.filter(|s: SnapView| s.status != AgentStatus::Idle)
}

pub open spec fn is_live(vis: Seq<SnapView>, id: Seq<char>) -> bool {
    exists|j: int| 0 <= j < vis.len() && #[trigger] vis[j].id == id
}

/// A character whose agent is gone turns back to the door.
pub open spec fn leaving_now(a: ActorView) -> ActorView {
    ActorView {
        leaving: true,
        walking_in: false,
        target: (DOOR_X, DOOR_Y),
        anim: AnimState::Walk,
        restarted: true,
        ..a
    }
}

pub open spec fn marked_one(a: ActorView, vis: Seq<SnapView>) -> ActorView {
    if !is_live(vis, a.id) && !a.leaving {
        leaving_now(a)
    } else {
        ActorView { restarted: false, ..a }
    }
}

pub open spec fn marked(actors: Seq<ActorView>, vis: Seq<SnapView>) -> Seq<ActorView> {
    actors.map_values(|a: ActorView| marked_one(a, vis))
}

/// Desks held by characters that are staying.
pub open spec fn held_desks(actors: Seq<ActorView>) -> Set<usize> {
    Set::new(
        |d: usize|
            exists|i: int| 0 <= i < actors.len() && !actors[i].leaving && #[trigger] actors[i].desk == Some(d),
    )
}

/// The first of the eight desks from `i` on that is not held.
pub open spec fn free_from(held: Set<usize>, i: nat) -> Option<usize>
    decreases 8 - i,
{
    if i >= 8 {
        None
    } else if !held.contains(i as usize) {
        Some(i as usize)
    } else {
        free_from(held, i + 1)
    }
}

/// Position of the first character of `actors` with id `id`, or -1.
pub open spec fn find_actor(actors: Seq<ActorView>, id: Seq<char>) -> int
    decreases actors.len(),
{
    if actors.len() == 0 {
        -1
    } else {
        let r = find_actor(actors.drop_last(), id);
        if r >= 0 {
            r
        } else if actors.last().id == id {
            actors.len() - 1
        } else {
            -1
        }
    }
}

/// How many shown agents share `parent` and sort before `id`: the place of
/// a sub-agent among its siblings, in id order.
pub open spec fn siblings_before(vis: Seq<SnapView>, parent: Seq<char>, id: Seq<char>) -> nat
    decreases vis.len(),
{
    if vis.len() == 0 {
        0
    } else {
        siblings_before(vis.drop_last(), parent, id) + if vis.last().parent == Some(parent) && lex_lt(
            vis.last().id,
            id,
        ) {
            1nat
        } else {
            0nat
        }
    }
}

pub open spec fn sibling_index(vis: Seq<SnapView>, s: SnapView) -> nat {
    match s.parent {
        Some(p) => siblings_before(vis, p, s.id),
        None => 0,
    }
}

pub open spec fn offset_x(parent_desk: usize, sib: nat) -> int {
    if parent_desk / 2 >= 3 {
        -(16 + 14 * sib)
    } else {
        (16 + 14 * sib) as int
    }
}

/// Where a newcomer goes: beside its parent's desk when the parent is in
/// the office at a desk (holding none itself), else the first free desk,
/// else just inside the door.
pub open spec fn placement(actors: Seq<ActorView>, held: Set<usize>, s: SnapView, sib: nat) -> (
    (i32, i32),
    Facing,
    Option<usize>,
) {
    let parent_desk = match s.parent {
        Some(p) => {
            let i = find_actor(actors, p);
            if i >= 0 {
                actors[i].desk
            } else {
                None
            }
        },
        None => None,
    };
    match parent_desk {
        Some(pd) => {
            let d = desk_at(pd as int);
            (((d.x + offset_x(pd, sib)) as i32, d.y), d.facing, None)
        },
        None => match free_from(held, 0) {
            Some(i) => ((desk_at(i as int).x, desk_at(i as int).y), desk_at(i as int).facing, Some(i)),
            None => (((DOOR_X + 12) as i32, DOOR_Y), Facing::Right, None),
        },
    }
}

/// One shown agent brought into the cast: a known character takes the
/// agent's status and tool and stays; when seated (arrived and standing at
/// its spot) it switches to the status animation, restarting it if it
/// changed. An unknown agent spawns a character walking in from the door.
pub open spec fn sync_one(st: (Seq<ActorView>, Set<usize>), s: SnapView, vis: Seq<SnapView>) -> (
    Seq<ActorView>,
    Set<usize>,
) {
    let actors = st.0;
    let held = st.1;
    let i = find_actor(actors, s.id);
    if i >= 0 {
        let a = actors[i];
        let next = anim_for_spec(s.status, s.tool);
        let seated = !a.walking_in && a.at_target;
        let b = ActorView {
            status: s.status,
            tool: s.tool,
            leaving: false,
            anim: if seated {
                next
            } else {
                a.anim
            },
            restarted: a.restarted || (seated && next != a.anim),
            ..a
        };
        (actors.update(i, b), held)
    } else {
        let (target, facing, desk) = placement(actors, held, s, sibling_index(vis, s));
        let a = ActorView {
            id: s.id,
            status: s.status,
            tool: s.tool,
            target,
            facing,
            desk,
            anim: AnimState::Walk,
            walking_in: true,
            leaving: false,
            at_target: false,
            restarted: true,
        };
        (
            actors.push(a),
            match desk {
                Some(d) => held.insert(d),
                None => held,
            },
        )
    }
}

pub open spec fn sync_all(st: (Seq<ActorView>, Set<usize>), todo: Seq<SnapView>, vis: Seq<SnapView>) -> (
    Seq<ActorView>,
    Set<usize>,
)
    decreases todo.len(),
{
    if todo.len() == 0 {
        st
    } else {
        sync_one(sync_all(st, todo.drop_last(), vis), todo.last(), vis)
    }
}

/// The cast after syncing with `snaps`: characters of agents no longer
/// shown leave, then each shown agent in order is brought in.
pub open spec fn synced(actors: Seq<ActorView>, snaps: Seq<SnapView>) -> Seq<ActorView> {
    let vis = shown(snaps);
    let m = marked(actors, vis);
    sync_all((m, held_desks(m)), vis, vis).0
}

} // verus!
verus! {

proof fn lemma_find_actor(actors: Seq<ActorView>, id: Seq<char>, i: int)
    requires
        0 <= i <= actors.len(),
        forall|j: int| 0 <= j < i ==> #[trigger] actors[j].id != id,
        i == actors.len() || actors[i].id == id,
    ensures
        find_actor(actors, id) == if i == actors.len() {
            -1
        } else {
            i
        },
    decreases actors.len(),
{
    if actors.len() > 0 {
        let d = actors.drop_last();
        if i < actors.len() - 1 {
            lemma_find_actor(d, id, i);
        } else {
            assert forall|j: int| 0 <= j < d.len() implies #[trigger] d[j].id != id by {
                assert(d[j] == actors[j]);
            }
            lemma_find_actor(d, id, d.len() as int);
        }
    }
}

proof fn lemma_find_actor_range(actors: Seq<ActorView>, id: Seq<char>)
    ensures
        -1 <= find_actor(actors, id) < actors.len(),
        find_actor(actors, id) >= 0 ==> actors[find_actor(actors, id)].id == id,
        find_actor(actors, id) < 0 ==> forall|j: int| 0 <= j < actors.len() ==> #[trigger] actors[j].id != id,
    decreases actors.len(),
{
    if actors.len() > 0 {
        lemma_find_actor_range(actors.drop_last(), id);
        let d = actors.drop_last();
        if find_actor(actors, id) < 0 {
            assert forall|j: int| 0 <= j < actors.len() implies #[trigger] actors[j].id != id by {
                if j < d.len() {
                    assert(d[j] == actors[j]);
                }
            }
        }
    }
}

fn find_actor_exec(actors: &Vec<Actor>, id: &str) -> (r: Option<usize>)
    ensures
        match r {
            Some(i) => i < actors@.len() && find_actor(actor_views(actors@), id@) == i,
            None => find_actor(actor_views(actors@), id@) == -1,
        },
{
    let ghost av = actor_views(actors@);
    let mut i: usize = 0;
    while i < actors.len()
        invariant
            i <= actors@.len(),
            av == actor_views(actors@),
            av.len() == actors@.len(),
            forall|j: int| 0 <= j < i ==> #[trigger] av[j].id != id@,
        decreases actors@.len() - i,
    {
        assert(av[i as int] == actors@[i as int]@);
        if str_eq(actors[i].session_id.as_str(), id) {
            proof {
                lemma_find_actor(av, id@, i as int);
            }
            return Some(i);
        }
        i += 1;
    }
    proof {
        lemma_find_actor(av, id@, av.len() as int);
    }
    None
}

fn is_live_exec(vis: &Vec<AgentView>, id: &str) -> (r: bool)
    ensures
        r == is_live(snap_views(vis@), id@),
{
    let ghost sv = snap_views(vis@);
    let mut j: usize = 0;
    while j < vis.len()
        invariant
            j <= vis@.len(),
            sv == snap_views(vis@),
            sv.len() == vis@.len(),
            forall|m: int| 0 <= m < j ==> #[trigger] sv[m].id != id@,
        decreases vis@.len() - j,
    {
        assert(sv[j as int] == vis@[j as int]@);
        if str_eq(vis[j].session_id.as_str(), id) {
            assert(sv[j as int].id == id@);
            return true;
        }
        j += 1;
    }
    false
}

fn copy_opt(o: &Option<String>) -> (r: Option<String>)
    ensures
        ostr(r) == ostr(*o),
{
    match o {
        Some(s) => Some(owned(s.as_str())),
        None => None,
    }
}

fn opt_str(o: &Option<String>) -> (r: Option<&str>)
    ensures
        opt_view(r) == ostr(*o),
{
    match o {
        Some(s) => Some(s.as_str()),
        None => None,
    }
}

proof fn lemma_siblings_bound(vis: Seq<SnapView>, parent: Seq<char>, id: Seq<char>)
    ensures
        siblings_before(vis, parent, id) <= vis.len(),
    decreases vis.len(),
{
    if vis.len() > 0 {
        lemma_siblings_bound(vis.drop_last(), parent, id);
    }
}

fn siblings_before_exec(vis: &Vec<AgentView>, parent: &str, id: &str) -> (r: usize)
    ensures
        r == siblings_before(snap_views(vis@), parent@, id@),
{
    let ghost sv = snap_views(vis@);
    let mut n: usize = 0;
    let mut j: usize = 0;
    assert(sv.take(0) =~= Seq::<SnapView>::empty());
    while j < vis.len()
        invariant
            j <= vis@.len(),
            sv == snap_views(vis@),
            sv.len() == vis@.len(),
            n == siblings_before(sv.take(j as int), parent@, id@),
            n <= j,
        decreases vis@.len() - j,
    {
        assert(sv.take(j + 1).drop_last() =~= sv.take(j as int));
        assert(sv.take(j + 1).last() == vis@[j as int]@);
        let same_parent = match &vis[j].parent_id {
            Some(p) => str_eq(p.as_str(), parent),
            None => false,
        };
        if same_parent && str_lt(vis[j].session_id.as_str(), id) {
            n = n + 1;
        }
        j += 1;
    }
    assert(sv.take(vis@.len() as int) =~= sv);
    n
}

pub open spec fn as_set(v: Seq<usize>) -> Set<usize> {
    Set::new(|d: usize| v.contains(d))
}

proof fn lemma_as_set_push(v: Seq<usize>, d: usize)
    ensures
        as_set(v.push(d)) == as_set(v).insert(d),
{
    assert forall|x: usize| v.push(d).contains(x) <==> v.contains(x) || x == d by {
        if v.contains(x) {
            let m = choose|m: int| 0 <= m < v.len() && v[m] == x;
            assert(v.push(d)[m] == x);
        }
        if x == d {
            assert(v.push(d)[v.len() as int] == d);
        }
    }
    assert forall|x: usize| #[trigger] as_set(v.push(d)).contains(x) == as_set(v).insert(d).contains(x) by {
        assert(as_set(v.push(d)).contains(x) == v.push(d).contains(x));
        assert(as_set(v).contains(x) == v.contains(x));
    }
    assert(as_set(v.push(d)) =~= as_set(v).insert(d));
}

fn first_free_desk(held: &Vec<usize>) -> (r: Option<usize>)
    ensures
        r == free_from(as_set(held@), 0),
        r matches Some(d) ==> d < 8,
{
    let mut i: usize = 0;
    while i < 8
        invariant
            i <= 8,
            free_from(as_set(held@), 0) == free_from(as_set(held@), i as nat),
        decreases 8 - i,
    {
        let mut found = false;
        let mut k: usize = 0;
        while k < held.len()
            invariant
                k <= held@.len(),
                found == exists|m: int| 0 <= m < k && held@[m] == i,
            decreases held@.len() - k,
        {
            if held[k] == i {
                found = true;
            }
            k += 1;
        }
        if !found {
            assert(!held@.contains(i));
            return Some(i);
        }
        assert(held@.contains(i));
        i += 1;
    }
    None
}

} // verus!
verus! {

/// The agents the office shows (see `shown`), in order.
fn shown_agents(snaps: Vec<AgentView>) -> (r: Vec<AgentView>)
    ensures
        snap_views(r@) == shown(snap_views(snaps@)),
{
    let ghost s0 = snaps@;
    let ghost sv = snap_views(s0);
    let ghost total = s0.len();
    let ghost keep = |s: SnapView| s.status != AgentStatus::Idle;
    assert(snaps@.len() == snaps.len());
    let mut src = snaps;
    let mut out: Vec<AgentView> = Vec::new();
    let mut k: usize = 0;
    assert(s0.subrange(0, total as int) =~= s0);
    proof {
        reveal(Seq::filter);
        assert(sv.take(0).filter(keep) =~= Seq::<SnapView>::empty());
        assert(snap_views(out@) =~= Seq::<SnapView>::empty());
    }
    while src.len() > 0
        invariant
            total == s0.len(),
            total <= usize::MAX,
            sv == snap_views(s0),
            sv.len() == total,
            keep == (|s: SnapView| s.status != AgentStatus::Idle),
            k + src@.len() == total,
            src@ == s0.subrange(k as int, total as int),
            snap_views(out@) == sv.take(k as int).filter(keep),
        decreases src@.len(),
    {
        let x = src.remove(0);
        proof {
            assert(x == s0[k as int]);
            assert(sv[k as int] == x@);
            lemma_filter_step(sv, keep, k as int);
        }
        if x.status != AgentStatus::Idle {
            let ghost before = out@;
            out.push(x);
            assert(snap_views(out@) =~= snap_views(before).push(out@[before.len() as int]@));
        }
        k += 1;
        assert(src@ =~= s0.subrange(k as int, total as int));
    }
    assert(sv.take(total as int) =~= sv);
    out
}

/// Every character whose agent is not shown starts leaving (see `marked`).
fn mark_departures(actors: Vec<Actor>, vis: &Vec<AgentView>) -> (r: Vec<Actor>)
    ensures
        actor_views(r@) == marked(actor_views(actors@), snap_views(vis@)),
{
    let ghost a0 = actors@;
    let ghost total = a0.len();
    let ghost visv = snap_views(vis@);
    assert(actors@.len() == actors.len());
    let mut src = actors;
    let mut out: Vec<Actor> = Vec::new();
    let mut k: usize = 0;
    assert(a0.subrange(0, total as int) =~= a0);
    while src.len() > 0
        invariant
            total == a0.len(),
            total <= usize::MAX,
            visv == snap_views(vis@),
            k + src@.len() == total,
            src@ == a0.subrange(k as int, total as int),
            out@.len() == k,
            forall|i: int| 0 <= i < k ==> (#[trigger] out@[i])@ == marked_one(a0[i]@, visv),
        decreases src@.len(),
    {
        let a = src.remove(0);
        assert(a == a0[k as int]);
        let live = is_live_exec(vis, a.session_id.as_str());
        let b = if !live && !a.leaving {
            Actor {
                leaving: true,
                walking_in: false,
                target: (DOOR_X, DOOR_Y),
                anim: AnimState::Walk,
                restarted: true,
                ..a
            }
        } else {
            Actor { restarted: false, ..a }
        };
        out.push(b);
        k += 1;
        assert(src@ =~= a0.subrange(k as int, total as int));
    }
    assert(actor_views(out@) =~= marked(actor_views(a0), visv));
    out
}

/// The desks held by staying characters.
fn held_of(actors: &Vec<Actor>) -> (r: Vec<usize>)
    ensures
        as_set(r@) == held_desks(actor_views(actors@)),
{
    let ghost av = actor_views(actors@);
    let mut held: Vec<usize> = Vec::new();
    let mut i: usize = 0;
    while i < actors.len()
        invariant
            i <= actors@.len(),
            av == actor_views(actors@),
            av.len() == actors@.len(),
            forall|d: usize|
                held@.contains(d) <==> exists|j: int|
                    0 <= j < i && !av[j].leaving && #[trigger] av[j].desk == Some(d),
        decreases actors@.len() - i,
    {
        assert(av[i as int] == actors@[i as int]@);
        let ghost before = held@;
        if !actors[i].leaving {
            match actors[i].desk_index {
                Some(d) => {
                    held.push(d);
                    assert(held@ =~= before.push(d));
                },
                None => {},
            }
        }
        proof {
            assert forall|d: usize|
                held@.contains(d) <==> exists|j: int|
                    0 <= j < i + 1 && !av[j].leaving && #[trigger] av[j].desk == Some(d) by {
                if held@.contains(d) && !before.contains(d) {
                    assert(av[i as int].desk == Some(d));
                }
                if exists|j: int| 0 <= j < i + 1 && !av[j].leaving && #[trigger] av[j].desk == Some(d) {
                    let j = choose|j: int| 0 <= j < i + 1 && !av[j].leaving && #[trigger] av[j].desk == Some(d);
                    if j < i {
                        assert(before.contains(d));
                        let m = choose|m: int| 0 <= m < before.len() && before[m] == d;
                        assert(held@[m] == d);
                    } else {
                        assert(held@[held@.len() - 1] == d);
                    }
                }
                if before.contains(d) {
                    let m = choose|m: int| 0 <= m < before.len() && before[m] == d;
                    assert(held@[m] == d);
                }
            }
        }
        i += 1;
    }
    assert(as_set(held@) =~= held_desks(av));
    held
}

} // verus!
verus! {

/// Brings the cast in line with the agent list (see `synced`): characters
/// of agents that went away or idle walk out; each agent still shown, in
/// order, updates its character or spawns one at the door.
pub fn sync_from_snapshots(actors: Vec<Actor>, snaps: Vec<AgentView>) -> (r: Vec<Actor>)
    requires
        well_formed(actor_views(actors@)),
        14 * snaps@.len() + 200 <= i32::MAX,
    ensures
        actor_views(r@) == synced(actor_views(actors@), snap_views(snaps@)),
        well_formed(actor_views(r@)),
{
    proof {
        snap_views(snaps@).lemma_filter_len(|s: SnapView| s.status != AgentStatus::Idle);
    }
    let ghost a0 = actor_views(actors@);
    let vis = shown_agents(snaps);
    let ghost visv = snap_views(vis@);
    let mut cast = mark_departures(actors, &vis);
    let ghost m = actor_views(cast@);
    assert(m == marked(a0, visv));
    assert(well_formed(m)) by {
        assert forall|i: int| 0 <= i < m.len() implies #[trigger] m[i].id == a0[i].id && m[i].desk
            == a0[i].desk by {}
    }
    let mut held = held_of(&cast);
    let mut k: usize = 0;
    assert(visv.take(0) =~= Seq::<SnapView>::empty());
    while k < vis.len()
        invariant
            visv == snap_views(vis@),
            visv.len() == vis@.len(),
            14 * vis@.len() + 200 <= i32::MAX,
            k <= vis@.len(),
            (actor_views(cast@), as_set(held@)) == sync_all((m, held_desks(m)), visv.take(k as int), visv),
            well_formed(actor_views(cast@)),
        decreases vis@.len() - k,
    {
        proof {
            assert(visv.take(k + 1).drop_last() =~= visv.take(k as int));
            assert(visv.take(k + 1).last() == vis@[k as int]@);
        }
        let ghost before = actor_views(cast@);
        let ghost held_before = as_set(held@);
        let ghost sv = vis@[k as int]@;
        let s = &vis[k];
        match find_actor_exec(&cast, s.session_id.as_str()) {
            Some(i) => {
                let a = cast.remove(i);
                let tool = copy_opt(&s.current_tool);
                let seated = !a.walking_in && a.at_target;
                let next = anim_for(s.status, opt_str(&s.current_tool));
                let anim = if seated {
                    next
                } else {
                    a.anim
                };
                let restarted = a.restarted || (seated && next != a.anim);
                let b = Actor { status: s.status, current_tool: tool, leaving: false, anim, restarted, ..a };
                cast.insert(i, b);
                proof {
                    assert(actor_views(cast@) =~= before.update(i as int, cast@[i as int]@));
                    assert(before[i as int] == a@);
                }
            },
            None => {
                let sib: usize = match &s.parent_id {
                    Some(p) => siblings_before_exec(&vis, p.as_str(), s.session_id.as_str()),
                    None => 0,
                };
                proof {
                    match sv.parent {
                        Some(p) => lemma_siblings_bound(visv, p, sv.id),
                        None => {},
                    }
                    assert(sib == sibling_index(visv, sv));
                }
                let parent_desk: Option<usize> = match &s.parent_id {
                    Some(p) => match find_actor_exec(&cast, p.as_str()) {
                        Some(pi) => {
                            assert(before[pi as int] == cast@[pi as int]@);
                            cast[pi].desk_index
                        },
                        None => None,
                    },
                    None => None,
                };
                let (target, facing, desk): ((i32, i32), Facing, Option<usize>) = match parent_desk {
                    Some(pd) => {
                        let desks = desk_grid();
                        let d = desks[pd];
                        assert(d == desk_at(pd as int));
                        let (dx, _) = child_offset_from_parent(pd, sib);
                        ((d.x + dx, d.y), d.facing, None)
                    },
                    None => match first_free_desk(&held) {
                        Some(fi) => {
                            let desks = desk_grid();
                            let d = desks[fi];
                            assert(d == desk_at(fi as int));
                            ((d.x, d.y), d.facing, Some(fi))
                        },
                        None => ((DOOR_X + 12, DOOR_Y), Facing::Right, None),
                    },
                };
                proof {
                    lemma_find_actor_range(before, sv.id);
                }
                cast.push(
                    Actor {
                        session_id: owned(s.session_id.as_str()),
                        status: s.status,
                        current_tool: copy_opt(&s.current_tool),
                        target,
                        facing,
                        desk_index: desk,
                        anim: AnimState::Walk,
                        walking_in: true,
                        leaving: false,
                        at_target: false,
                        restarted: true,
                    },
                );
                proof {
                    assert(actor_views(cast@) =~= before.push(cast@[before.len() as int]@));
                }
                match desk {
                    Some(d) => {
                        let ghost hb = held@;
                        held.push(d);
                        proof {
                            lemma_as_set_push(hb, d);
                        }
                    },
                    None => {},
                }
            },
        }
        k += 1;
    }
    assert(visv.take(vis@.len() as int) =~= visv);
    cast
}

} // verus!
verus! {

/// The cast invariant of a sync in progress over the first `k` shown
/// agents: every staying character is a shown agent's, and each of those
/// `k` agents has a staying character.
pub open spec fn cast_matches(actors: Seq<ActorView>, vis: Seq<SnapView>, k: int) -> bool {
    &&& forall|i: int| 0 <= i < actors.len() && !actors[i].leaving ==> is_live(vis, #[trigger] actors[i].id)
    &&& forall|j: int|
        0 <= j < k ==> exists|i: int| 0 <= i < actors.len() && #[trigger] actors[i].id == #[trigger] vis[j].id && !actors[i].leaving
}

proof fn lemma_sync_prefix(m: Seq<ActorView>, held: Set<usize>, vis: Seq<SnapView>, k: int)
    requires
        0 <= k <= vis.len(),
        forall|i: int| 0 <= i < m.len() && !m[i].leaving ==> is_live(vis, #[trigger] m[i].id),
    ensures
        cast_matches(sync_all((m, held), vis.take(k), vis).0, vis, k),
    decreases k,
{
    if k == 0 {
        assert(vis.take(0) =~= Seq::<SnapView>::empty());
    } else {
        lemma_sync_prefix(m, held, vis, k - 1);
        assert(vis.take(k).drop_last() =~= vis.take(k - 1));
        let st = sync_all((m, held), vis.take(k - 1), vis);
        let s = vis[k - 1];
        assert(vis.take(k).last() == s);
        let before = st.0;
        let after = sync_all((m, held), vis.take(k), vis).0;
        assert(after == sync_one(st, s, vis).0);
        assert(is_live(vis, s.id)) by {
            assert(vis[k - 1].id == s.id);
        }
        lemma_find_actor_range(before, s.id);
        let f = find_actor(before, s.id);
        if f >= 0 {
            assert(after.len() == before.len());
            assert forall|i: int| 0 <= i < after.len() && !after[i].leaving implies is_live(
                vis,
                #[trigger] after[i].id,
            ) by {
                if i != f {
                    assert(after[i] == before[i]);
                }
            }
            assert forall|j: int| 0 <= j < k implies exists|i: int|
                0 <= i < after.len() && #[trigger] after[i].id == #[trigger] vis[j].id && !after[i].leaving by {
                if j < k - 1 {
                    let i0 = choose|i: int|
                        0 <= i < before.len() && #[trigger] before[i].id == #[trigger] vis[j].id && !before[i].leaving;
                    if i0 == f {
                        assert(after[f].id == vis[j].id && !after[f].leaving);
                    } else {
                        assert(after[i0] == before[i0]);
                    }
                } else {
                    assert(after[f].id == vis[j].id && !after[f].leaving);
                }
            }
        } else {
            assert(after.len() == before.len() + 1);
            assert forall|i: int| 0 <= i < after.len() && !after[i].leaving implies is_live(
                vis,
                #[trigger] after[i].id,
            ) by {
                if i < before.len() {
                    assert(after[i] == before[i]);
                }
            }
            assert forall|j: int| 0 <= j < k implies exists|i: int|
                0 <= i < after.len() && #[trigger] after[i].id == #[trigger] vis[j].id && !after[i].leaving by {
                if j < k - 1 {
                    let i0 = choose|i: int|
                        0 <= i < before.len() && #[trigger] before[i].id == #[trigger] vis[j].id && !before[i].leaving;
                    assert(after[i0] == before[i0]);
                } else {
                    assert(after[before.len() as int].id == vis[j].id);
                }
            }
        }
    }
}

/// Law: after a sync, the characters that stay are exactly those of the
/// shown (non-idle) agents: every staying character's agent is shown, and
/// every shown agent has a staying character. Idle or vanished agents'
/// characters are all on their way out.
pub proof fn law_sync_cast_is_shown_agents(actors: Seq<ActorView>, snaps: Seq<SnapView>)
    ensures
        cast_matches(synced(actors, snaps), shown(snaps), shown(snaps).len() as int),
{
    let vis = shown(snaps);
    let m = marked(actors, vis);
    assert forall|i: int| 0 <= i < m.len() && !m[i].leaving implies is_live(vis, #[trigger] m[i].id) by {
        assert(m[i] == marked_one(actors[i], vis));
    }
    lemma_sync_prefix(m, held_desks(m), vis, vis.len() as int);
    assert(vis.take(vis.len() as int) =~= vis);
}


/// No two staying characters sit at the same desk.
pub open spec fn desks_exclusive(actors: Seq<ActorView>) -> bool {
    forall|i: int, j: int|
        0 <= i < actors.len() && 0 <= j < actors.len() && i != j && !actors[i].leaving
            && !actors[j].leaving && (#[trigger] actors[i]).desk is Some ==> actors[i].desk
            != (#[trigger] actors[j]).desk
}

/// Every desk a staying character holds is in `held`.
pub open spec fn held_covers(actors: Seq<ActorView>, held: Set<usize>) -> bool {
    forall|i: int|
        0 <= i < actors.len() && !actors[i].leaving && (#[trigger] actors[i]).desk is Some
            ==> held.contains(actors[i].desk->0)
}

/// No character on its way out belongs to a shown agent.
pub open spec fn none_return(actors: Seq<ActorView>, vis: Seq<SnapView>) -> bool {
    forall|i: int| 0 <= i < actors.len() && (#[trigger] actors[i]).leaving ==> !is_live(vis, actors[i].id)
}

proof fn lemma_free_from(held: Set<usize>, n: nat)
    ensures
        free_from(held, n) matches Some(d) ==> !held.contains(d) && d < 8,
    decreases 8 - n,
{
    if n < 8 && held.contains(n as usize) {
        lemma_free_from(held, n + 1);
    }
}

proof fn lemma_desks_step(st: (Seq<ActorView>, Set<usize>), s: SnapView, vis: Seq<SnapView>)
    requires
        desks_exclusive(st.0),
        held_covers(st.0, st.1),
        none_return(st.0, vis),
        is_live(vis, s.id),
    ensures
        desks_exclusive(sync_one(st, s, vis).0),
        held_covers(sync_one(st, s, vis).0, sync_one(st, s, vis).1),
        none_return(sync_one(st, s, vis).0, vis),
{
    let before = st.0;
    let held = st.1;
    let (after, held2) = sync_one(st, s, vis);
    lemma_find_actor_range(before, s.id);
    let f = find_actor(before, s.id);
    if f >= 0 {
        assert(!before[f].leaving);
        assert(after.len() == before.len());
        assert forall|i: int| 0 <= i < after.len() implies (#[trigger] after[i]).desk == before[i].desk
            && after[i].leaving == before[i].leaving && after[i].id == before[i].id by {
            if i != f {
                assert(after[i] == before[i]);
            }
        }
        assert(desks_exclusive(after)) by {
            assert forall|i: int, j: int|
                0 <= i < after.len() && 0 <= j < after.len() && i != j && !after[i].leaving
                    && !after[j].leaving && (#[trigger] after[i]).desk is Some implies after[i].desk
                    != (#[trigger] after[j]).desk by {
                assert(before[i].desk == after[i].desk);
                assert(before[j].desk == after[j].desk);
            }
        }
    } else {
        let (target, facing, desk) = placement(before, held, s, sibling_index(vis, s));
        let parent_desk = match s.parent {
            Some(p) => {
                let i = find_actor(before, p);
                if i >= 0 {
                    before[i].desk
                } else {
                    None
                }
            },
            None => None,
        };
        lemma_free_from(held, 0);
        assert(desk matches Some(d) ==> !held.contains(d));
        let n = before.len() as int;
        assert(after.len() == n + 1);
        assert(after[n].desk == desk && !after[n].leaving);
        assert forall|i: int| 0 <= i < n implies #[trigger] after[i] == before[i] by {}
        assert(desks_exclusive(after)) by {
            assert forall|i: int, j: int|
                0 <= i < after.len() && 0 <= j < after.len() && i != j && !after[i].leaving
                    && !after[j].leaving && (#[trigger] after[i]).desk is Some implies after[i].desk
                    != (#[trigger] after[j]).desk by {
                if i < n && j < n {
                    assert(after[i] == before[i]);
                    assert(after[j] == before[j]);
                } else if i == n {
                    assert(after[j] == before[j]);
                    if before[j].desk is Some {
                        assert(held.contains(before[j].desk->0));
                    }
                } else {
                    assert(after[i] == before[i]);
                    assert(held.contains(before[i].desk->0));
                }
            }
        }
        assert(held_covers(after, held2)) by {
            assert forall|i: int|
                0 <= i < after.len() && !after[i].leaving && (#[trigger] after[i]).desk is Some implies held2.contains(
                after[i].desk->0) by {
                if i < n {
                    assert(after[i] == before[i]);
                }
            }
        }
        assert(none_return(after, vis)) by {
            assert forall|i: int| 0 <= i < after.len() && (#[trigger] after[i]).leaving implies !is_live(
                vis,
                after[i].id,
            ) by {
                if i < n {
                    assert(after[i] == before[i]);
                }
            }
        }
    }
}

proof fn lemma_desks_prefix(m: Seq<ActorView>, held: Set<usize>, vis: Seq<SnapView>, k: int)
    requires
        0 <= k <= vis.len(),
        desks_exclusive(m),
        held_covers(m, held),
        none_return(m, vis),
    ensures
        desks_exclusive(sync_all((m, held), vis.take(k), vis).0),
        held_covers(sync_all((m, held), vis.take(k), vis).0, sync_all((m, held), vis.take(k), vis).1),
        none_return(sync_all((m, held), vis.take(k), vis).0, vis),
    decreases k,
{
    if k == 0 {
        assert(vis.take(0) =~= Seq::<SnapView>::empty());
    } else {
        lemma_desks_prefix(m, held, vis, k - 1);
        assert(vis.take(k).drop_last() =~= vis.take(k - 1));
        assert(vis.take(k).last() == vis[k - 1]);
        assert(is_live(vis, vis[k - 1].id));
        lemma_desks_step(sync_all((m, held), vis.take(k - 1), vis), vis[k - 1], vis);
    }
}

/// Law: a sync never seats two staying characters at one desk, provided no
/// character already on its way out belongs to an agent shown again (such
/// a character turns back keeping its desk, which a newcomer may have
/// taken).
pub proof fn law_sync_desks_exclusive(actors: Seq<ActorView>, snaps: Seq<SnapView>)
    requires
        desks_exclusive(actors),
        none_return(actors, shown(snaps)),
    ensures
        desks_exclusive(synced(actors, snaps)),
{
    let vis = shown(snaps);
    let m = marked(actors, vis);
    assert forall|i: int| 0 <= i < m.len() implies #[trigger] m[i] == marked_one(actors[i], vis) by {}
    assert(desks_exclusive(m)) by {
        assert forall|i: int, j: int|
            0 <= i < m.len() && 0 <= j < m.len() && i != j && !m[i].leaving && !m[j].leaving && (
            #[trigger] m[i]).desk is Some implies m[i].desk != (#[trigger] m[j]).desk by {
            assert(m[i] == marked_one(actors[i], vis));
            assert(m[j] == marked_one(actors[j], vis));
        }
    }
    assert(held_covers(m, held_desks(m))) by {
        assert forall|i: int| 0 <= i < m.len() && !m[i].leaving && (#[trigger] m[i]).desk is Some implies held_desks(
            m,
        ).contains(m[i].desk->0) by {
            let d = m[i].desk->0;
            assert(m[i].desk == Some(d));
        }
    }
    assert(none_return(m, vis)) by {
        assert forall|i: int| 0 <= i < m.len() && (#[trigger] m[i]).leaving implies !is_live(vis, m[i].id) by {
            assert(m[i] == marked_one(actors[i], vis));
        }
    }
    lemma_desks_prefix(m, held_desks(m), vis, vis.len() as int);
    assert(vis.take(vis.len() as int) =~= vis);
}
} // verus!
verus! {

/// A character after a frame of walking: away from its spot it plays the
/// walk (restarted if it was playing something else); at its spot, one
/// that was walking in has arrived and switches to its status animation.
pub open spec fn stepped(a: ActorView, at_target: bool) -> ActorView {
    if !at_target {
        ActorView {
            at_target: false,
            anim: AnimState::Walk,
            restarted: a.anim != AnimState::Walk,
            ..a
        }
    } else if a.walking_in {
        let next = anim_for_spec(a.status, a.tool);
        ActorView { at_target: true, walking_in: false, anim: next, restarted: next != a.anim, ..a }
    } else {
        ActorView { at_target: true, restarted: false, ..a }
    }
}

/// Applies one frame of walking (see `stepped`); `at_target` is whether the
/// window has the character at its target.
pub fn step_actor(a: &mut Actor, at_target: bool)
    ensures
        final(a)@ == stepped(old(a)@, at_target),
{
    if !at_target {
        a.at_target = false;
        a.restarted = a.anim != AnimState::Walk;
        a.anim = AnimState::Walk;
    } else if a.walking_in {
        let next = anim_for(a.status, opt_str(&a.current_tool));
        a.at_target = true;
        a.walking_in = false;
        a.restarted = next != a.anim;
        a.anim = next;
    } else {
        a.at_target = true;
        a.restarted = false;
    }
}


/// Every character on its way out heads for the door and is no longer
/// walking in.
pub open spec fn leavers_at_door(actors: Seq<ActorView>) -> bool {
    forall|i: int|
        0 <= i < actors.len() && (#[trigger] actors[i]).leaving ==> actors[i].target == (DOOR_X, DOOR_Y)
            && !actors[i].walking_in
}

/// No two shown agents share a session id.
pub open spec fn distinct_ids(vis: Seq<SnapView>) -> bool {
    forall|i: int, j: int| 0 <= i < j < vis.len() ==> #[trigger] vis[i].id != #[trigger] vis[j].id
}

/// After the first `k` shown agents were brought in: no character is lost
/// and ids keep their places; every character added is one of those `k`
/// agents'; each of those agents has a staying character with its status
/// and tool; every character of an agent not shown is leaving for the door.
pub open spec fn follows(m: Seq<ActorView>, st: Seq<ActorView>, vis: Seq<SnapView>, k: int) -> bool {
    &&& st.len() >= m.len()
    &&& forall|i: int| 0 <= i < m.len() ==> #[trigger] st[i].id == m[i].id
    &&& forall|i: int|
        m.len() <= i < st.len() ==> exists|j: int| 0 <= j < k && (#[trigger] st[i]).id == vis[j].id
    &&& forall|j: int|
        0 <= j < k ==> exists|i: int|
            0 <= i < st.len() && #[trigger] st[i].id == #[trigger] vis[j].id && st[i].status == vis[j].status
                && st[i].tool == vis[j].tool && !st[i].leaving
    &&& forall|i: int|
        0 <= i < st.len() && !is_live(vis, (#[trigger] st[i]).id) ==> st[i].leaving && st[i].target == (
        DOOR_X,
        DOOR_Y,
    ) && !st[i].walking_in
    &&& leavers_at_door(st)
}

proof fn lemma_follow_prefix(m: Seq<ActorView>, held: Set<usize>, vis: Seq<SnapView>, k: int)
    requires
        0 <= k <= vis.len(),
        distinct_ids(vis),
        leavers_at_door(m),
        forall|i: int|
            0 <= i < m.len() && !is_live(vis, (#[trigger] m[i]).id) ==> m[i].leaving && m[i].target == (
            DOOR_X,
            DOOR_Y,
        ) && !m[i].walking_in,
    ensures
        follows(m, sync_all((m, held), vis.take(k), vis).0, vis, k),
    decreases k,
{
    if k == 0 {
        assert(vis.take(0) =~= Seq::<SnapView>::empty());
    } else {
        lemma_follow_prefix(m, held, vis, k - 1);
        assert(vis.take(k).drop_last() =~= vis.take(k - 1));
        let st = sync_all((m, held), vis.take(k - 1), vis);
        let s = vis[k - 1];
        assert(vis.take(k).last() == s);
        let before = st.0;
        let after = sync_all((m, held), vis.take(k), vis).0;
        assert(after == sync_one(st, s, vis).0);
        assert(is_live(vis, s.id)) by {
            assert(vis[k - 1].id == s.id);
        }
        lemma_find_actor_range(before, s.id);
        let f = find_actor(before, s.id);
        if f >= 0 {
            assert(after.len() == before.len());
            assert forall|i: int| 0 <= i < after.len() && i != f implies #[trigger] after[i] == before[i] by {}
            assert(after[f].id == s.id && after[f].status == s.status && after[f].tool == s.tool
                && !after[f].leaving);
            assert forall|j: int| 0 <= j < k implies exists|i: int|
                0 <= i < after.len() && #[trigger] after[i].id == #[trigger] vis[j].id && after[i].status
                    == vis[j].status && after[i].tool == vis[j].tool && !after[i].leaving by {
                if j < k - 1 {
                    let i0 = choose|i: int|
                        0 <= i < before.len() && #[trigger] before[i].id == #[trigger] vis[j].id
                            && before[i].status == vis[j].status && before[i].tool == vis[j].tool
                            && !before[i].leaving;
                    assert(vis[j].id != vis[k - 1].id);
                    assert(i0 != f);
                    assert(after[i0] == before[i0]);
                } else {
                    assert(after[f].id == vis[j].id);
                }
            }
            assert forall|i: int| 0 <= i < m.len() implies #[trigger] after[i].id == m[i].id by {
                assert(before[i].id == m[i].id);
            }
            assert forall|i: int|
                0 <= i < after.len() && !is_live(vis, (#[trigger] after[i]).id) implies after[i].leaving
                && after[i].target == (DOOR_X, DOOR_Y) && !after[i].walking_in by {
                if i != f {
                    assert(after[i] == before[i]);
                }
            }
            assert forall|i: int| m.len() <= i < after.len() implies exists|j: int|
                0 <= j < k && (#[trigger] after[i]).id == vis[j].id by {
                assert(after[i].id == before[i].id);
                let j0 = choose|j: int| 0 <= j < k - 1 && (#[trigger] before[i]).id == vis[j].id;
                assert(after[i].id == vis[j0].id);
            }
            assert forall|i: int| 0 <= i < after.len() && (#[trigger] after[i]).leaving implies after[i].target
                == (DOOR_X, DOOR_Y) && !after[i].walking_in by {
                if i != f {
                    assert(after[i] == before[i]);
                }
            }
        } else {
            let n = before.len() as int;
            assert(after.len() == n + 1);
            assert forall|i: int| 0 <= i < n implies #[trigger] after[i] == before[i] by {}
            assert(after[n].id == s.id && after[n].status == s.status && after[n].tool == s.tool
                && !after[n].leaving);
            assert forall|j: int| 0 <= j < k implies exists|i: int|
                0 <= i < after.len() && #[trigger] after[i].id == #[trigger] vis[j].id && after[i].status
                    == vis[j].status && after[i].tool == vis[j].tool && !after[i].leaving by {
                if j < k - 1 {
                    let i0 = choose|i: int|
                        0 <= i < before.len() && #[trigger] before[i].id == #[trigger] vis[j].id
                            && before[i].status == vis[j].status && before[i].tool == vis[j].tool
                            && !before[i].leaving;
                    assert(after[i0] == before[i0]);
                } else {
                    assert(after[n].id == vis[j].id);
                }
            }
            assert forall|i: int| 0 <= i < m.len() implies #[trigger] after[i].id == m[i].id by {
                assert(before[i].id == m[i].id);
            }
            assert forall|i: int|
                0 <= i < after.len() && !is_live(vis, (#[trigger] after[i]).id) implies after[i].leaving
                && after[i].target == (DOOR_X, DOOR_Y) && !after[i].walking_in by {
                if i < n {
                    assert(after[i] == before[i]);
                }
            }
            assert forall|i: int| m.len() <= i < after.len() implies exists|j: int|
                0 <= j < k && (#[trigger] after[i]).id == vis[j].id by {
                if i < n {
                    assert(after[i] == before[i]);
                    let j0 = choose|j: int| 0 <= j < k - 1 && (#[trigger] before[i]).id == vis[j].id;
                    assert(after[i].id == vis[j0].id);
                } else {
                    assert(after[i].id == vis[k - 1].id);
                }
            }
            assert forall|i: int| 0 <= i < after.len() && (#[trigger] after[i]).leaving implies after[i].target
                == (DOOR_X, DOOR_Y) && !after[i].walking_in by {
                if i < n {
                    assert(after[i] == before[i]);
                }
            }
        }
    }
}

/// Law: a sync brings the cast in line with the agents. Starting from a
/// cast whose leavers head for the door (as every cast built by syncs and
/// steps does), and with each shown agent listed once: no character is
/// removed and each keeps its place; the only characters added are shown
/// agents', so the ids after are the ids before and those of the shown
/// agents; every shown (non-idle) agent has a
/// staying character that carries its status and tool; every character of
/// an agent not shown is leaving, heading for the door, no longer walking
/// in; and leavers still all head for the door.
pub proof fn law_sync_follows_agents(actors: Seq<ActorView>, snaps: Seq<SnapView>)
    requires
        leavers_at_door(actors),
        distinct_ids(shown(snaps)),
    ensures
        follows(actors, synced(actors, snaps), shown(snaps), shown(snaps).len() as int),
{
    let vis = shown(snaps);
    let m = marked(actors, vis);
    assert forall|i: int| 0 <= i < m.len() implies #[trigger] m[i] == marked_one(actors[i], vis) by {}
    assert(leavers_at_door(m)) by {
        assert forall|i: int| 0 <= i < m.len() && (#[trigger] m[i]).leaving implies m[i].target == (DOOR_X, DOOR_Y)
            && !m[i].walking_in by {
            assert(m[i] == marked_one(actors[i], vis));
        }
    }
    assert forall|i: int|
        0 <= i < m.len() && !is_live(vis, (#[trigger] m[i]).id) implies m[i].leaving && m[i].target == (
        DOOR_X,
        DOOR_Y,
    ) && !m[i].walking_in by {
        assert(m[i] == marked_one(actors[i], vis));
    }
    lemma_follow_prefix(m, held_desks(m), vis, vis.len() as int);
    assert(vis.take(vis.len() as int) =~= vis);
    let out = synced(actors, snaps);
    assert forall|i: int| 0 <= i < actors.len() implies #[trigger] out[i].id == actors[i].id by {
        assert(out[i].id == m[i].id);
    }
}

/// Law: a frame of walking keeps a leaver heading for the door, not
/// walking in.
pub proof fn law_step_keeps_leavers_at_door(a: ActorView, at_target: bool)
    requires
        leavers_at_door(seq![a]),
    ensures
        leavers_at_door(seq![stepped(a, at_target)]),
{
    assert(seq![a][0] == a);
    assert(seq![stepped(a, at_target)][0] == stepped(a, at_target));
}

} // verus!
