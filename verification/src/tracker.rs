//! Live tracking of voice sessions per channel.
//!
//! The tracker holds one session per channel that currently has occupants,
//! according to the last full occupancy snapshot it saw for that channel's
//! guild. A snapshot is the authoritative channel-to-occupants mapping for
//! one guild at one instant; deltas are never trusted. On every snapshot the
//! tracker starts sessions for newly occupied channels, adds newly seen
//! occupants to running sessions (early leavers are deliberately kept: the
//! recorded participant set is cumulative over the session), and converts
//! each tracked channel of that guild that is now empty into one ended
//! session carrying the cumulative participant set and the elapsed time.
//!
//! Sessions already in progress when the tracker starts are invisible until
//! the next snapshot arrives; the time before that point is not recoverable.
//! This is a documented limitation, not silently repaired.
//!
//! Instants are a monotonic clock in tenths of a second supplied by the
//! caller; they must never decrease between observations.

use vstd::prelude::*;

verus! {

broadcast use vstd::set::group_set_axioms, vstd::map::group_map_axioms, vstd::seq_lib::lemma_seq_contains_after_push;

/// One live session: the owning guild, the cumulative set of occupants
/// ever seen, and the instant the channel was first seen occupied.
pub struct Session {
    pub guild: u64,
    pub members: Vec<u64>,
    pub start: u64,
}

/// The record produced the instant a tracked channel becomes empty.
pub struct EndedSession {
    pub channel: u64,
    pub guild: u64,
    pub members: Vec<u64>,
    pub duration: u64,
}

/// The mathematical image of one session.
#[verifier::ext_equal]
pub struct SessView {
    pub guild: u64,
    pub members: Set<u64>,
    pub start: u64,
}

/// Tracks all live sessions, keyed by channel.
pub struct Tracker {
    sessions: Vec<(u64, Session)>,
    last_now: u64,
}

pub open spec fn sess_view(s: Session) -> SessView {
    SessView { guild: s.guild, members: s.members@.to_set(), start: s.start }
}

/// No channel appears twice.
pub open spec fn unique_chans(s: Seq<(u64, Session)>) -> bool {
    forall|i: int, j: int|
        0 <= i < j < s.len() ==> #[trigger] s[i].0 != #[trigger] s[j].0
}

/// The association list as a map from channel to session image.
pub open spec fn view_of(s: Seq<(u64, Session)>) -> Map<u64, SessView>
    decreases s.len(),
{
    if s.len() == 0 {
        Map::empty()
    } else {
        view_of(s.drop_last()).insert(s.last().0, sess_view(s.last().1))
    }
}

/// No channel appears twice in a snapshot.
pub open spec fn unique_snap(s: Seq<(u64, Vec<u64>)>) -> bool {
    forall|i: int, j: int|
        0 <= i < j < s.len() ==> #[trigger] s[i].0 != #[trigger] s[j].0
}

/// The occupancy a snapshot states: the channels listed with at least one
/// occupant, each mapped to its occupant set. A channel listed with no
/// occupants counts as absent.
pub open spec fn snap_view(s: Seq<(u64, Vec<u64>)>) -> Map<u64, Set<u64>>
    decreases s.len(),
{
    if s.len() == 0 {
        Map::empty()
    } else if s.last().1@.len() > 0 {
        snap_view(s.drop_last()).insert(s.last().0, s.last().1@.to_set())
    } else {
        snap_view(s.drop_last())
    }
}

/// How one occupied channel changes the tracked map: a running session
/// absorbs the occupants, an untracked channel starts a fresh session.
pub open spec fn upsert_one(
    m: Map<u64, SessView>,
    guild: u64,
    c: u64,
    occ: Set<u64>,
    now: u64,
) -> Map<u64, SessView> {
    if m.contains_key(c) {
        m.insert(
            c,
            SessView { guild: m[c].guild, members: m[c].members.union(occ), start: m[c].start },
        )
    } else {
        m.insert(c, SessView { guild, members: occ, start: now })
    }
}

/// The channels whose sessions end under a snapshot: tracked for this
/// guild, and no longer occupied.
pub open spec fn ended_channels(
    m: Map<u64, SessView>,
    guild: u64,
    occm: Map<u64, Set<u64>>,
) -> Set<u64> {
    Set::new(|c: u64| m.contains_key(c) && m[c].guild == guild && !occm.contains_key(c))
}

/// The tracked map after one observation: every occupied channel is
/// tracked (absorbing or starting a session), every emptied channel of
/// this guild is gone, and channels of other guilds are untouched.
pub open spec fn after_observe(
    m: Map<u64, SessView>,
    guild: u64,
    occm: Map<u64, Set<u64>>,
    now: u64,
) -> Map<u64, SessView> {
    Map::new(
        |c: u64| occm.contains_key(c) || (m.contains_key(c) && m[c].guild != guild),
        |c: u64|
            if occm.contains_key(c) {
                if m.contains_key(c) {
                    SessView {
                        guild: m[c].guild,
                        members: m[c].members.union(occm[c]),
                        start: m[c].start,
                    }
                } else {
                    SessView { guild, members: occm[c], start: now }
                }
            } else {
                m[c]
            },
    )
}

/// Folding `upsert_one` over the occupied snapshot entries, in order.
pub open spec fn phase1(
    m: Map<u64, SessView>,
    guild: u64,
    snap: Seq<(u64, Vec<u64>)>,
    now: u64,
) -> Map<u64, SessView>
    decreases snap.len(),
{
    if snap.len() == 0 {
        m
    } else {
        let rest = phase1(m, guild, snap.drop_last(), now);
        if snap.last().1@.len() > 0 {
            upsert_one(rest, guild, snap.last().0, snap.last().1@.to_set(), now)
        } else {
            rest
        }
    }
}

proof fn lemma_view_of_props(s: Seq<(u64, Session)>)
    requires
        unique_chans(s),
    ensures
        forall|c: u64|
            view_of(s).contains_key(c) <==> exists|i: int| 0 <= i < s.len() && s[i].0 == c,
        forall|i: int| 0 <= i < s.len() ==> view_of(s).contains_key(#[trigger] s[i].0),
        forall|i: int|
            0 <= i < s.len() ==> view_of(s)[#[trigger] s[i].0] == sess_view(s[i].1),
    decreases s.len(),
{
    if s.len() > 0 {
        let b = s.drop_last();
        assert(forall|i: int| 0 <= i < b.len() ==> b[i] == s[i]);
        assert(unique_chans(b));
        lemma_view_of_props(b);
        assert forall|c: u64| view_of(s).contains_key(c) implies exists|i: int|
            0 <= i < s.len() && s[i].0 == c by {
            if c == s.last().0 {
                assert(s[s.len() - 1].0 == c);
            } else {
                assert(view_of(b).contains_key(c));
                let i = choose|i: int| 0 <= i < b.len() && b[i].0 == c;
                assert(s[i].0 == c);
            }
        }
        assert forall|i: int| 0 <= i < s.len() implies view_of(s)[#[trigger] s[i].0]
            == sess_view(s[i].1) && view_of(s).contains_key(s[i].0) by {
            if i == s.len() - 1 {
            } else {
                assert(b[i] == s[i]);
                assert(s[i].0 != s.last().0);
                assert(view_of(b)[b[i].0] == sess_view(b[i].1));
                assert(view_of(b).contains_key(b[i].0));
            }
        }
    }
}

proof fn lemma_view_of_push(s: Seq<(u64, Session)>, p: (u64, Session))
    ensures
        view_of(s.push(p)) == view_of(s).insert(p.0, sess_view(p.1)),
{
    assert(s.push(p).drop_last() =~= s);
    assert(s.push(p).last() == p);
}

proof fn lemma_view_of_update(s: Seq<(u64, Session)>, i: int, ns: Session)
    requires
        unique_chans(s),
        0 <= i < s.len(),
    ensures
        view_of(s.update(i, (s[i].0, ns))) == view_of(s).insert(s[i].0, sess_view(ns)),
    decreases s.len(),
{
    let t = s.update(i, (s[i].0, ns));
    if i == s.len() - 1 {
        assert(t.drop_last() =~= s.drop_last());
        assert(t.last() == (s[i].0, ns));
        assert(view_of(t) =~= view_of(s).insert(s[i].0, sess_view(ns)));
    } else {
        let b = s.drop_last();
        assert(forall|k: int| 0 <= k < b.len() ==> b[k] == s[k]);
        assert(unique_chans(b));
        lemma_view_of_update(b, i, ns);
        assert(t.drop_last() =~= b.update(i, (b[i].0, ns)));
        assert(t.last() == s.last());
        assert(b[i].0 == s[i].0);
        // the final insert is at the last channel, distinct from s[i].0
        assert(s[i].0 != s.last().0);
        assert(view_of(t) == view_of(b.update(i, (b[i].0, ns))).insert(
            s.last().0,
            sess_view(s.last().1),
        ));
        assert(view_of(t) =~= view_of(s).insert(s[i].0, sess_view(ns)));
    }
}

proof fn lemma_snap_view_dom(s: Seq<(u64, Vec<u64>)>)
    requires
        unique_snap(s),
    ensures
        forall|c: u64|
            snap_view(s).contains_key(c) <==> exists|i: int|
                0 <= i < s.len() && s[i].0 == c && s[i].1@.len() > 0,
        forall|i: int|
            0 <= i < s.len() && s[i].1@.len() > 0 ==> snap_view(s)[#[trigger] s[i].0]
                == s[i].1@.to_set(),
    decreases s.len(),
{
    if s.len() > 0 {
        let b = s.drop_last();
        assert(forall|k: int| 0 <= k < b.len() ==> b[k] == s[k]);
        assert(unique_snap(b));
        lemma_snap_view_dom(b);
        assert forall|c: u64| snap_view(s).contains_key(c) implies exists|i: int|
            0 <= i < s.len() && s[i].0 == c && s[i].1@.len() > 0 by {
            if s.last().1@.len() > 0 && c == s.last().0 {
                assert(s[s.len() - 1].0 == c && s[s.len() - 1].1@.len() > 0);
            } else {
                assert(snap_view(b).contains_key(c));
                let i = choose|i: int| 0 <= i < b.len() && b[i].0 == c && b[i].1@.len() > 0;
                assert(s[i].0 == c && s[i].1@.len() > 0);
            }
        }
        assert forall|c: u64| (exists|i: int|
            0 <= i < s.len() && s[i].0 == c && s[i].1@.len() > 0) implies snap_view(s)
            .contains_key(c) by {
            let i = choose|i: int| 0 <= i < s.len() && s[i].0 == c && s[i].1@.len() > 0;
            if i == s.len() - 1 {
            } else {
                assert(b[i] == s[i]);
                assert(snap_view(b).contains_key(c));
            }
        }
        assert forall|i: int| 0 <= i < s.len() && s[i].1@.len() > 0 implies snap_view(s)[
            #[trigger] s[i].0] == s[i].1@.to_set() by {
            if i == s.len() - 1 {
            } else {
                assert(b[i] == s[i]);
                assert(s[i].0 != s.last().0);
                assert(snap_view(b)[b[i].0] == b[i].1@.to_set());
            }
        }
    }
}

#[verifier::spinoff_prover]
#[verifier::rlimit(100)]
proof fn lemma_phase1_char(
    m: Map<u64, SessView>,
    guild: u64,
    snap: Seq<(u64, Vec<u64>)>,
    now: u64,
)
    requires
        unique_snap(snap),
    ensures
        forall|c: u64|
            snap_view(snap).contains_key(c) ==> #[trigger] phase1(m, guild, snap, now)
                .contains_key(c),
        forall|c: u64|
            snap_view(snap).contains_key(c) ==> #[trigger] phase1(m, guild, snap, now)[c] =~= (
            if m.contains_key(c) {
                SessView {
                    guild: m[c].guild,
                    members: m[c].members.union(snap_view(snap)[c]),
                    start: m[c].start,
                }
            } else {
                SessView { guild, members: snap_view(snap)[c], start: now }
            }),
        forall|c: u64|
            !snap_view(snap).contains_key(c) ==> (#[trigger] phase1(m, guild, snap, now)
                .contains_key(c) <==> m.contains_key(c)) && (m.contains_key(c) ==> phase1(
                m,
                guild,
                snap,
                now,
            )[c] =~= m[c]),
    decreases snap.len(),
{
    if snap.len() > 0 {
        let b = snap.drop_last();
        assert(forall|k: int| 0 <= k < b.len() ==> b[k] == snap[k]);
        assert(unique_snap(b));
        lemma_phase1_char(m, guild, b, now);
        lemma_snap_view_dom(snap);
        lemma_snap_view_dom(b);
        let last = snap.last();
        let p_b = phase1(m, guild, b, now);
        let p_s = phase1(m, guild, snap, now);
        let sv_b = snap_view(b);
        let sv_s = snap_view(snap);
        if last.1@.len() > 0 {
            let c0 = last.0;
            let occ0 = last.1@.to_set();
            // the last channel is new to the prefix, by uniqueness
            assert(!sv_b.contains_key(c0)) by {
                if sv_b.contains_key(c0) {
                    let i = choose|i: int|
                        0 <= i < b.len() && b[i].0 == c0 && b[i].1@.len() > 0;
                    assert(snap[i].0 == snap[snap.len() - 1].0);
                }
            }
            assert(p_b.contains_key(c0) <==> m.contains_key(c0));
            assert(p_s == upsert_one(p_b, guild, c0, occ0, now));
            assert(sv_s == sv_b.insert(c0, occ0));
            assert forall|c: u64| snap_view(snap).contains_key(c) implies #[trigger] phase1(
                m,
                guild,
                snap,
                now,
            ).contains_key(c) && phase1(m, guild, snap, now)[c] =~= (if m.contains_key(c) {
                SessView {
                    guild: m[c].guild,
                    members: m[c].members.union(snap_view(snap)[c]),
                    start: m[c].start,
                }
            } else {
                SessView { guild, members: snap_view(snap)[c], start: now }
            }) by {
                if c == c0 {
                    assert(sv_s[c0] == occ0);
                    if m.contains_key(c0) {
                        assert(p_b[c0] == m[c0]);
                    }
                } else {
                    assert(sv_b.contains_key(c));
                    assert(p_b.contains_key(c));
                    assert(p_b[c] == (if m.contains_key(c) {
                        SessView {
                            guild: m[c].guild,
                            members: m[c].members.union(sv_b[c]),
                            start: m[c].start,
                        }
                    } else {
                        SessView { guild, members: sv_b[c], start: now }
                    }));
                    assert(sv_s[c] == sv_b[c]);
                    assert(p_s[c] == p_b[c]);
                }
            }
            assert forall|c: u64| !snap_view(snap).contains_key(c) implies (#[trigger] phase1(
                m,
                guild,
                snap,
                now,
            ).contains_key(c) <==> m.contains_key(c)) && (m.contains_key(c) ==> phase1(
                m,
                guild,
                snap,
                now,
            )[c] =~= m[c]) by {
                assert(c != c0);
                assert(!sv_b.contains_key(c));
                assert(p_b.contains_key(c) <==> m.contains_key(c));
                assert(p_s.contains_key(c) <==> p_b.contains_key(c));
                if m.contains_key(c) {
                    assert(p_b[c] == m[c]);
                    assert(p_s[c] == p_b[c]);
                }
            }
        } else {
            assert(p_s == p_b);
            assert(sv_s == sv_b);
            assert forall|c: u64| snap_view(snap).contains_key(c) implies #[trigger] phase1(
                m,
                guild,
                snap,
                now,
            ).contains_key(c) && phase1(m, guild, snap, now)[c] =~= (if m.contains_key(c) {
                SessView {
                    guild: m[c].guild,
                    members: m[c].members.union(snap_view(snap)[c]),
                    start: m[c].start,
                }
            } else {
                SessView { guild, members: snap_view(snap)[c], start: now }
            }) by {
                assert(p_b.contains_key(c));
            }
            assert forall|c: u64| !snap_view(snap).contains_key(c) implies (#[trigger] phase1(
                m,
                guild,
                snap,
                now,
            ).contains_key(c) <==> m.contains_key(c)) && (m.contains_key(c) ==> phase1(
                m,
                guild,
                snap,
                now,
            )[c] =~= m[c]) by {
                assert(p_b.contains_key(c) <==> m.contains_key(c));
            }
        }
    }
}

impl View for Tracker {
    type V = Map<u64, SessView>;

    /// The tracked channels with their session images.
    closed spec fn view(&self) -> Map<u64, SessView> {
        view_of(self.sessions@)
    }
}

fn vec_contains(v: &Vec<u64>, x: u64) -> (r: bool)
    ensures
        r == v@.contains(x),
{
    let mut i: usize = 0;
    while i < v.len()
        invariant
            0 <= i <= v.len(),
            forall|j: int| 0 <= j < i ==> v@[j] != x,
        decreases v.len() - i,
    {
        if v[i] == x {
            return true;
        }
        i = i + 1;
    }
    false
}

fn copy_ids(v: &Vec<u64>) -> (r: Vec<u64>)
    ensures
        r@ == v@,
{
    let mut r: Vec<u64> = Vec::new();
    let mut i: usize = 0;
    while i < v.len()
        invariant
            0 <= i <= v.len(),
            r@ =~= v@.take(i as int),
        decreases v.len() - i,
    {
        r.push(v[i]);
        i = i + 1;
    }
    proof {
        assert(r@ =~= v@);
    }
    r
}

fn merge_members(members: &mut Vec<u64>, occs: &Vec<u64>)
    ensures
        final(members)@.to_set() == old(members)@.to_set().union(occs@.to_set()),
{
    let ghost orig = members@.to_set();
    let mut j: usize = 0;
    while j < occs.len()
        invariant
            0 <= j <= occs.len(),
            members@.to_set() == orig.union(occs@.take(j as int).to_set()),
        decreases occs.len() - j,
    {
        let x = occs[j];
        proof {
            assert(occs@.take(j as int + 1) =~= occs@.take(j as int).push(x));
        }
        if !vec_contains(members, x) {
            let ghost before = members@;
            members.push(x);
            proof {
                assert(members@ == before.push(x));
                assert forall|a: u64|
                    members@.to_set().contains(a) <==> orig.union(
                        occs@.take(j as int + 1).to_set(),
                    ).contains(a) by {
                    assert(before.push(x).contains(a) <==> (a == x || before.contains(a)));
                    assert(before.to_set().contains(a) == orig.union(
                        occs@.take(j as int).to_set(),
                    ).contains(a));
                    assert(occs@.take(j as int).push(x).contains(a) <==> (a == x
                        || occs@.take(j as int).contains(a)));
                    assert(occs@.take(j as int + 1).contains(a) == occs@.take(
                        j as int,
                    ).push(x).contains(a));
                }
                assert(members@.to_set() =~= orig.union(occs@.take(j as int + 1).to_set()));
            }
        } else {
            proof {
                assert(members@.contains(x));
                assert forall|a: u64|
                    members@.to_set().contains(a) <==> orig.union(
                        occs@.take(j as int + 1).to_set(),
                    ).contains(a) by {
                    assert(members@.to_set().contains(a) == orig.union(
                        occs@.take(j as int).to_set(),
                    ).contains(a));
                    assert(occs@.take(j as int).push(x).contains(a) <==> (a == x
                        || occs@.take(j as int).contains(a)));
                    assert(occs@.take(j as int + 1).contains(a) == occs@.take(
                        j as int,
                    ).push(x).contains(a));
                }
                assert(members@.to_set() =~= orig.union(occs@.take(j as int + 1).to_set()));
            }
        }
        j = j + 1;
    }
    proof {
        assert(occs@.take(occs@.len() as int) =~= occs@);
    }
}

fn find_index(sessions: &Vec<(u64, Session)>, c: u64) -> (r: Option<usize>)
    ensures
        match r {
            Some(i) => i < sessions@.len() && sessions@[i as int].0 == c,
            None => forall|j: int| 0 <= j < sessions@.len() ==> sessions@[j].0 != c,
        },
{
    let mut i: usize = 0;
    while i < sessions.len()
        invariant
            0 <= i <= sessions.len(),
            forall|j: int| 0 <= j < i ==> sessions@[j].0 != c,
        decreases sessions.len() - i,
    {
        if sessions[i].0 == c {
            return Some(i);
        }
        i = i + 1;
    }
    None
}

fn snap_occupied(snapshot: &Vec<(u64, Vec<u64>)>, c: u64) -> (r: bool)
    requires
        unique_snap(snapshot@),
    ensures
        r == snap_view(snapshot@).contains_key(c),
{
    proof {
        lemma_snap_view_dom(snapshot@);
    }
    let mut i: usize = 0;
    while i < snapshot.len()
        invariant
            0 <= i <= snapshot.len(),
            unique_snap(snapshot@),
            forall|j: int|
                0 <= j < i ==> !(snapshot@[j].0 == c && snapshot@[j].1@.len() > 0),
        decreases snapshot.len() - i,
    {
        if snapshot[i].0 == c && snapshot[i].1.len() > 0 {
            proof {
                lemma_snap_view_dom(snapshot@);
            }
            return true;
        }
        i = i + 1;
    }
    false
}

impl Tracker {
    /// The invariant: channels are unique and no session starts after the
    /// last observed instant.
    pub closed spec fn wf(self) -> bool {
        &&& unique_chans(self.sessions@)
        &&& forall|i: int|
            0 <= i < self.sessions@.len() ==> #[trigger] self.sessions@[i].1.start
                <= self.last_now
    }

    /// The latest instant this tracker has observed.
    pub closed spec fn last_now(self) -> u64 {
        self.last_now
    }

    /// A fresh tracker: nothing is tracked.
    pub fn new() -> (r: Tracker)
        ensures
            r.wf(),
            r@ == Map::<u64, SessView>::empty(),
            r.last_now() == 0,
    {
        Tracker { sessions: Vec::new(), last_now: 0 }
    }

    /// Applies one full occupancy snapshot for one guild, taken at the
    /// monotonic instant `now` (tenths of a second).
    ///
    /// The tracked map becomes `after_observe` of the old map, and the
    /// returned events are exactly the ended channels of this guild: one
    /// event per emptied channel (in no promised order), carrying the
    /// cumulative participant set and the elapsed time since the session
    /// was first seen.
    #[verifier::rlimit(100)]
    pub fn observe(
        &mut self,
        guild: u64,
        snapshot: &Vec<(u64, Vec<u64>)>,
        now: u64,
    ) -> (events: Vec<EndedSession>)
        requires
            old(self).wf(),
            now >= old(self).last_now(),
            unique_snap(snapshot@),
        ensures
            final(self).wf(),
            final(self).last_now() == now,
            final(self)@ == after_observe(old(self)@, guild, snap_view(snapshot@), now),
            forall|i: int|
                0 <= i < events@.len() ==> {
                    let e = #[trigger] events@[i];
                    &&& ended_channels(old(self)@, guild, snap_view(snapshot@)).contains(
                        e.channel,
                    )
                    &&& e.guild == guild
                    &&& e.members@.to_set() == old(self)@[e.channel].members
                    &&& e.duration == now - old(self)@[e.channel].start
                },
            forall|c: u64|
                ended_channels(old(self)@, guild, snap_view(snapshot@)).contains(c)
                    ==> exists|i: int| 0 <= i < events@.len() && #[trigger] events@[i].channel
                    == c,
            forall|i: int, j: int|
                0 <= i < j < events@.len() ==> #[trigger] events@[i].channel
                    != #[trigger] events@[j].channel,
    {
        let ghost m0 = view_of(self.sessions@);
        let ghost occm = snap_view(snapshot@);

        // Phase 1: every occupied channel absorbs its occupants or starts
        // a fresh session.
        let mut k: usize = 0;
        while k < snapshot.len()
            invariant
                0 <= k <= snapshot@.len(),
                unique_snap(snapshot@),
                unique_chans(self.sessions@),
                now >= old(self).last_now(),
                forall|i: int|
                    0 <= i < self.sessions@.len() ==> #[trigger] self.sessions@[i].1.start
                        <= now,
                view_of(self.sessions@) == phase1(m0, guild, snapshot@.take(k as int), now),
                self.last_now == old(self).last_now,
            decreases snapshot@.len() - k,
        {
            proof {
                assert(snapshot@.take(k as int + 1).drop_last() =~= snapshot@.take(k as int));
                assert(snapshot@.take(k as int + 1).last() == snapshot@[k as int]);
            }
            let c = snapshot[k].0;
            if snapshot[k].1.len() > 0 {
                proof {
                    lemma_view_of_props(self.sessions@);
                }
                match find_index(&self.sessions, c) {
                    Some(i) => {
                        let g0 = self.sessions[i].1.guild;
                        let st = self.sessions[i].1.start;
                        let mut mem = copy_ids(&self.sessions[i].1.members);
                        merge_members(&mut mem, &snapshot[k].1);
                        let ghost before = self.sessions@;
                        self.sessions.set(i, (c, Session { guild: g0, members: mem, start: st }));
                        proof {
                            lemma_view_of_update(
                                before,
                                i as int,
                                Session { guild: g0, members: mem, start: st },
                            );
                            assert(view_of(before).contains_key(c));
                            assert(view_of(before)[c] == sess_view(before[i as int].1));
                            assert(sess_view(Session { guild: g0, members: mem, start: st })
                                =~= SessView {
                                guild: view_of(before)[c].guild,
                                members: view_of(before)[c].members.union(
                                    snapshot@[k as int].1@.to_set(),
                                ),
                                start: view_of(before)[c].start,
                            });
                            assert(view_of(self.sessions@) == phase1(
                                m0,
                                guild,
                                snapshot@.take(k as int + 1),
                                now,
                            ));
                        }
                    },
                    None => {
                        let mem = copy_ids(&snapshot[k].1);
                        let ghost before = self.sessions@;
                        self.sessions.push((c, Session { guild, members: mem, start: now }));
                        proof {
                            lemma_view_of_push(
                                before,
                                (c, Session { guild, members: mem, start: now }),
                            );
                            assert(!view_of(before).contains_key(c));
                            assert(unique_chans(self.sessions@)) by {
                                assert(forall|x: int|
                                    0 <= x < before.len() ==> self.sessions@[x] == before[x]);
                            }
                            assert(view_of(self.sessions@) == phase1(
                                m0,
                                guild,
                                snapshot@.take(k as int + 1),
                                now,
                            ));
                        }
                    },
                }
            } else {
                proof {
                    assert(phase1(m0, guild, snapshot@.take(k as int + 1), now) == phase1(
                        m0,
                        guild,
                        snapshot@.take(k as int),
                        now,
                    ));
                }
            }
            k = k + 1;
        }
        proof {
            assert(snapshot@.take(snapshot@.len() as int) =~= snapshot@);
        }
        let ghost mid = self.sessions@;
        proof {
            lemma_phase1_char(m0, guild, snapshot@, now);
            lemma_view_of_props(mid);
            lemma_view_of_props(old(self).sessions@);
        }

        // Phase 2: walk the tracked sessions from the back; every session
        // of this guild whose channel the snapshot now shows empty becomes
        // one ended-session record, the rest stay tracked.
        let mut kept: Vec<(u64, Session)> = Vec::new();
        let mut events: Vec<EndedSession> = Vec::new();
        while self.sessions.len() > 0
            invariant
                unique_snap(snapshot@),
                occm == snap_view(snapshot@),
                forall|i: int|
                    0 <= i < self.sessions@.len() ==> #[trigger] self.sessions@[i].1.start
                        <= now,
                kept@ + kept_of(self.sessions@, guild, occm) == kept_of(mid, guild, occm),
                events@ + ended_of(self.sessions@, guild, occm, now) == ended_of(
                    mid,
                    guild,
                    occm,
                    now,
                ),
            decreases self.sessions@.len(),
        {
            let ghost rem0 = self.sessions@;
            let entry = self.sessions.pop().unwrap();
            proof {
                assert(entry == rem0.last());
                assert(self.sessions@ == rem0.drop_last());
                assert(forall|i: int|
                    0 <= i < self.sessions@.len() ==> self.sessions@[i] == rem0[i]);
                assert(rem0[rem0.len() - 1].1.start <= now);
            }
            let c = entry.0;
            let s = entry.1;
            let occupied = snap_occupied(snapshot, c);
            if s.guild == guild && !occupied {
                events.push(
                    EndedSession {
                        channel: c,
                        guild: s.guild,
                        members: s.members,
                        duration: now - s.start,
                    },
                );
                proof {
                    assert(ends(rem0.last(), guild, occm));
                    assert(events@.last() == ev_of(rem0.last(), now));
                    assert(ended_of(rem0, guild, occm, now) == seq![ev_of(rem0.last(), now)]
                        + ended_of(self.sessions@, guild, occm, now));
                    assert(events@ + ended_of(self.sessions@, guild, occm, now) =~= ended_of(
                        mid,
                        guild,
                        occm,
                        now,
                    ));
                    assert(kept_of(rem0, guild, occm) == kept_of(self.sessions@, guild, occm));
                }
            } else {
                kept.push((c, s));
                proof {
                    assert(!ends(rem0.last(), guild, occm));
                    assert(kept@.last() == rem0.last());
                    assert(kept_of(rem0, guild, occm) == seq![rem0.last()] + kept_of(
                        self.sessions@,
                        guild,
                        occm,
                    ));
                    assert(kept@ + kept_of(self.sessions@, guild, occm) =~= kept_of(
                        mid,
                        guild,
                        occm,
                    ));
                    assert(ended_of(rem0, guild, occm, now) == ended_of(
                        self.sessions@,
                        guild,
                        occm,
                        now,
                    ));
                }
            }
        }
        proof {
            assert(kept@ + kept_of(self.sessions@, guild, occm) =~= kept@);
            assert(events@ + ended_of(self.sessions@, guild, occm, now) =~= events@);
            assert(kept@ == kept_of(mid, guild, occm));
            assert(events@ == ended_of(mid, guild, occm, now));
        }
        self.sessions = kept;
        self.last_now = now;
        proof {
            lemma_split_props(mid, guild, occm, now);
            let fin = self.sessions@;
            let after = after_observe(m0, guild, occm, now);
            let vmid = view_of(mid);
            assert(vmid == phase1(m0, guild, snapshot@, now));
            assert forall|c: u64|
                view_of(fin).contains_key(c) <==> after.contains_key(c) by {
                if occm.contains_key(c) {
                    assert(vmid.contains_key(c));
                    assert(vmid[c].guild == (if m0.contains_key(c) {
                        m0[c].guild
                    } else {
                        guild
                    }));
                } else {
                    assert(vmid.contains_key(c) <==> m0.contains_key(c));
                    if m0.contains_key(c) {
                        assert(vmid[c] == m0[c]);
                    }
                }
            }
            assert forall|c: u64| after.contains_key(c) implies view_of(fin)[c]
                =~= after[c] by {
                assert(view_of(fin).contains_key(c));
                assert(view_of(fin)[c] == vmid[c]);
                if occm.contains_key(c) {
                    assert(vmid.contains_key(c));
                } else {
                    assert(vmid[c] == m0[c]);
                }
            }
            assert(view_of(fin) =~~= after);
            assert forall|i: int| 0 <= i < events@.len() implies {
                let e = #[trigger] events@[i];
                &&& ended_channels(m0, guild, occm).contains(e.channel)
                &&& e.guild == guild
                &&& e.members@.to_set() == m0[e.channel].members
                &&& e.duration == now - m0[e.channel].start
            } by {
                let e = events@[i];
                assert(vmid.contains_key(e.channel) && vmid[e.channel].guild == guild
                    && !occm.contains_key(e.channel));
                assert(vmid[e.channel] == m0[e.channel]);
                assert(m0.contains_key(e.channel));
            }
            assert forall|c: u64| ended_channels(m0, guild, occm).contains(c) implies exists|
                i: int,
            | 0 <= i < events@.len() && #[trigger] events@[i].channel == c by {
                assert(m0.contains_key(c));
                assert(vmid.contains_key(c));
                assert(vmid[c] == m0[c]);
            }
        }
        events
    }
}

/// The ended-session record for one tracked entry.
pub open spec fn ev_of(e: (u64, Session), now: u64) -> EndedSession {
    EndedSession {
        channel: e.0,
        guild: e.1.guild,
        members: e.1.members,
        duration: (now - e.1.start) as u64,
    }
}

/// Whether a tracked entry's session ends under the given occupancy.
pub open spec fn ends(e: (u64, Session), guild: u64, occm: Map<u64, Set<u64>>) -> bool {
    e.1.guild == guild && !occm.contains_key(e.0)
}

/// The tracked entries that survive a snapshot, in the order the walk
/// produces them (back to front).
pub open spec fn kept_of(
    s: Seq<(u64, Session)>,
    guild: u64,
    occm: Map<u64, Set<u64>>,
) -> Seq<(u64, Session)>
    decreases s.len(),
{
    if s.len() == 0 {
        Seq::empty()
    } else if ends(s.last(), guild, occm) {
        kept_of(s.drop_last(), guild, occm)
    } else {
        seq![s.last()] + kept_of(s.drop_last(), guild, occm)
    }
}

/// The ended-session records a snapshot produces, in the order the walk
/// produces them (back to front).
pub open spec fn ended_of(
    s: Seq<(u64, Session)>,
    guild: u64,
    occm: Map<u64, Set<u64>>,
    now: u64,
) -> Seq<EndedSession>
    decreases s.len(),
{
    if s.len() == 0 {
        Seq::empty()
    } else if ends(s.last(), guild, occm) {
        seq![ev_of(s.last(), now)] + ended_of(s.drop_last(), guild, occm, now)
    } else {
        ended_of(s.drop_last(), guild, occm, now)
    }
}

proof fn lemma_view_of_prepend(p: (u64, Session), s: Seq<(u64, Session)>)
    requires
        forall|i: int| 0 <= i < s.len() ==> #[trigger] s[i].0 != p.0,
    ensures
        view_of(seq![p] + s) == view_of(s).insert(p.0, sess_view(p.1)),
    decreases s.len(),
{
    let t = seq![p] + s;
    if s.len() == 0 {
        assert(t.drop_last() =~= s);
        assert(t.last() == p);
        assert(view_of(t) == view_of(t.drop_last()).insert(t.last().0, sess_view(t.last().1)));
    } else {
        let b = s.drop_last();
        assert(forall|i: int| 0 <= i < b.len() ==> b[i] == s[i]);
        lemma_view_of_prepend(p, b);
        assert(t.drop_last() =~= seq![p] + b);
        assert(t.last() == s.last());
        assert(view_of(t) == view_of(seq![p] + b).insert(s.last().0, sess_view(s.last().1)));
        assert(s[s.len() - 1].0 != p.0);
        assert(view_of(t) =~= view_of(s).insert(p.0, sess_view(p.1)));
    }
}

/// Splitting a tracked list under one snapshot: the surviving entries keep
/// their sessions untouched and stay unique; the ended records are exactly
/// the emptied channels of this guild, one each, with the session's
/// cumulative members and its elapsed time.
#[verifier::rlimit(100)]
proof fn lemma_split_props(
    s: Seq<(u64, Session)>,
    guild: u64,
    occm: Map<u64, Set<u64>>,
    now: u64,
)
    requires
        unique_chans(s),
        forall|i: int| 0 <= i < s.len() ==> #[trigger] s[i].1.start <= now,
    ensures
        unique_chans(kept_of(s, guild, occm)),
        forall|i: int|
            0 <= i < kept_of(s, guild, occm).len() ==> #[trigger] kept_of(s, guild, occm)[i]
                .1.start <= now,
        forall|c: u64|
            #![trigger view_of(kept_of(s, guild, occm)).contains_key(c)]
            view_of(kept_of(s, guild, occm)).contains_key(c) <==> (view_of(s).contains_key(c)
                && !(view_of(s)[c].guild == guild && !occm.contains_key(c))),
        forall|c: u64|
            #[trigger] view_of(kept_of(s, guild, occm)).contains_key(c) ==> view_of(
                kept_of(s, guild, occm),
            )[c] == view_of(s)[c],
        forall|i: int|
            0 <= i < ended_of(s, guild, occm, now).len() ==> {
                let e = #[trigger] ended_of(s, guild, occm, now)[i];
                &&& view_of(s).contains_key(e.channel)
                &&& view_of(s)[e.channel].guild == guild
                &&& !occm.contains_key(e.channel)
                &&& e.guild == guild
                &&& e.members@.to_set() == view_of(s)[e.channel].members
                &&& e.duration == now - view_of(s)[e.channel].start
            },
        forall|c: u64|
            #![trigger view_of(s).contains_key(c), occm.contains_key(c)]
            view_of(s).contains_key(c) && view_of(s)[c].guild == guild && !occm.contains_key(c)
                ==> exists|i: int|
                0 <= i < ended_of(s, guild, occm, now).len() && #[trigger] ended_of(
                    s,
                    guild,
                    occm,
                    now,
                )[i].channel == c,
        forall|i: int, j: int|
            0 <= i < j < ended_of(s, guild, occm, now).len() ==> #[trigger] ended_of(
                s,
                guild,
                occm,
                now,
            )[i].channel != #[trigger] ended_of(s, guild, occm, now)[j].channel,
    decreases s.len(),
{
    if s.len() > 0 {
        let b = s.drop_last();
        let last = s.last();
        assert(forall|i: int| 0 <= i < b.len() ==> b[i] == s[i]);
        assert(unique_chans(b));
        lemma_split_props(b, guild, occm, now);
        lemma_view_of_props(b);
        lemma_view_of_props(s);
        let k_s = kept_of(s, guild, occm);
        let k_b = kept_of(b, guild, occm);
        let e_s = ended_of(s, guild, occm, now);
        let e_b = ended_of(b, guild, occm, now);
        let v_s = view_of(s);
        let v_b = view_of(b);
        assert(v_s == v_b.insert(last.0, sess_view(last.1)));
        assert(!v_b.contains_key(last.0)) by {
            if v_b.contains_key(last.0) {
                let i = choose|i: int| 0 <= i < b.len() && b[i].0 == last.0;
                assert(s[i].0 == s[s.len() - 1].0);
            }
        }
        assert(s[s.len() - 1].1.start <= now);
        if ends(last, guild, occm) {
            assert(k_s == k_b);
            assert(e_s == seq![ev_of(last, now)] + e_b);
            assert(e_s[0] == ev_of(last, now));
            assert forall|c: u64|
                #![trigger view_of(k_s).contains_key(c)]
                view_of(k_s).contains_key(c) <==> (v_s.contains_key(c) && !(v_s[c].guild
                    == guild && !occm.contains_key(c))) by {
                assert(view_of(k_b).contains_key(c) <==> (v_b.contains_key(c)
                    && !(v_b[c].guild == guild && !occm.contains_key(c))));
                if c == last.0 {
                    assert(v_s[c] == sess_view(last.1));
                    assert(!v_b.contains_key(c));
                } else {
                    if view_of(k_b).contains_key(c) {
                        assert(v_b.contains_key(c));
                    }
                    if v_s.contains_key(c) {
                        assert(v_b.contains_key(c));
                        assert(v_s[c] == v_b[c]);
                    }
                }
            }
            assert forall|c: u64| #[trigger] view_of(k_s).contains_key(c) implies view_of(
                k_s,
            )[c] == v_s[c] by {
                assert(v_b.contains_key(c));
                assert(c != last.0);
                assert(v_s[c] == v_b[c]);
            }
            assert forall|i: int| 0 <= i < e_s.len() implies {
                let e = #[trigger] e_s[i];
                &&& v_s.contains_key(e.channel)
                &&& v_s[e.channel].guild == guild
                &&& !occm.contains_key(e.channel)
                &&& e.guild == guild
                &&& e.members@.to_set() == v_s[e.channel].members
                &&& e.duration == now - v_s[e.channel].start
            } by {
                if i == 0 {
                    assert(v_s[last.0] == sess_view(last.1));
                } else {
                    assert(e_s[i] == e_b[i - 1]);
                    let e = e_b[i - 1];
                    assert(v_b.contains_key(e.channel));
                    assert(e.channel != last.0);
                    assert(v_s[e.channel] == v_b[e.channel]);
                }
            }
            assert forall|c: u64|
                #![trigger view_of(s).contains_key(c), occm.contains_key(c)]
                v_s.contains_key(c) && v_s[c].guild == guild && !occm.contains_key(c) implies
                exists|i: int| 0 <= i < e_s.len() && #[trigger] e_s[i].channel == c by {
                if c == last.0 {
                    assert(e_s[0].channel == c);
                } else {
                    assert(v_b.contains_key(c) && v_b[c] == v_s[c]);
                    let i = choose|i: int| 0 <= i < e_b.len() && #[trigger] e_b[i].channel == c;
                    assert(e_s[i + 1].channel == c);
                }
            }
            assert forall|i: int, j: int| 0 <= i < j < e_s.len() implies #[trigger] e_s[i]
                .channel != #[trigger] e_s[j].channel by {
                if i == 0 {
                    assert(e_s[j] == e_b[j - 1]);
                    assert(v_b.contains_key(e_b[j - 1].channel));
                } else {
                    assert(e_s[i] == e_b[i - 1]);
                    assert(e_s[j] == e_b[j - 1]);
                }
            }
        } else {
            assert(k_s == seq![last] + k_b);
            assert(e_s == e_b);
            lemma_view_of_props(k_b);
            assert forall|i: int| 0 <= i < k_b.len() implies #[trigger] k_b[i].0 != last.0 by {
                assert(view_of(k_b).contains_key(k_b[i].0));
                assert(v_b.contains_key(k_b[i].0));
            }
            lemma_view_of_prepend(last, k_b);
            assert(view_of(k_s) == view_of(k_b).insert(last.0, sess_view(last.1)));
            assert(k_s[0] == last);
            assert(forall|i: int| 1 <= i < k_s.len() ==> #[trigger] k_s[i] == k_b[i - 1]);
            assert forall|i: int, j: int| 0 <= i < j < k_s.len() implies #[trigger] k_s[i].0
                != #[trigger] k_s[j].0 by {
                if i == 0 {
                    assert(k_s[j] == k_b[j - 1]);
                } else {
                    assert(k_s[i] == k_b[i - 1]);
                    assert(k_s[j] == k_b[j - 1]);
                }
            }
            assert forall|i: int|
                0 <= i < k_s.len() implies #[trigger] k_s[i].1.start <= now by {
                if i == 0 {
                } else {
                    assert(k_s[i] == k_b[i - 1]);
                }
            }
            assert forall|c: u64|
                #![trigger view_of(k_s).contains_key(c)]
                view_of(k_s).contains_key(c) <==> (v_s.contains_key(c) && !(v_s[c].guild
                    == guild && !occm.contains_key(c))) by {
                assert(view_of(k_b).contains_key(c) <==> (v_b.contains_key(c)
                    && !(v_b[c].guild == guild && !occm.contains_key(c))));
                if c == last.0 {
                    assert(v_s[c] == sess_view(last.1));
                } else {
                    if view_of(k_b).contains_key(c) {
                        assert(v_b.contains_key(c));
                        assert(v_s[c] == v_b[c]);
                    }
                    if v_s.contains_key(c) {
                        assert(v_b.contains_key(c));
                        assert(v_s[c] == v_b[c]);
                    }
                }
            }
            assert forall|c: u64| #[trigger] view_of(k_s).contains_key(c) implies view_of(
                k_s,
            )[c] == v_s[c] by {
                if c == last.0 {
                    assert(view_of(k_s)[c] == sess_view(last.1));
                    assert(v_s[c] == sess_view(last.1));
                } else {
                    assert(view_of(k_b).contains_key(c));
                    assert(v_b.contains_key(c));
                    assert(v_s[c] == v_b[c]);
                }
            }
            assert forall|i: int| 0 <= i < e_s.len() implies {
                let e = #[trigger] e_s[i];
                &&& v_s.contains_key(e.channel)
                &&& v_s[e.channel].guild == guild
                &&& !occm.contains_key(e.channel)
                &&& e.guild == guild
                &&& e.members@.to_set() == v_s[e.channel].members
                &&& e.duration == now - v_s[e.channel].start
            } by {
                let e = e_b[i];
                assert(v_b.contains_key(e.channel));
                assert(e.channel != last.0);
                assert(v_s[e.channel] == v_b[e.channel]);
            }
            assert forall|c: u64|
                #![trigger view_of(s).contains_key(c), occm.contains_key(c)]
                v_s.contains_key(c) && v_s[c].guild == guild && !occm.contains_key(c) implies
                exists|i: int| 0 <= i < e_s.len() && #[trigger] e_s[i].channel == c by {
                if c == last.0 {
                    assert(v_s[c] == sess_view(last.1));
                    assert(ends(last, guild, occm));
                } else {
                    assert(v_b.contains_key(c) && v_b[c] == v_s[c]);
                }
            }
        }
    }
}

/// Law: a snapshot that reports no occupancy change — every tracked channel
/// of the guild still occupied, each occupant already recorded, and no new
/// channel — ends no session and leaves the tracked map untouched, session
/// starts included.
pub proof fn lemma_observe_idempotent(
    m: Map<u64, SessView>,
    guild: u64,
    occm: Map<u64, Set<u64>>,
    now: u64,
)
    requires
        forall|c: u64|
            #[trigger] occm.contains_key(c) <==> (m.contains_key(c) && m[c].guild == guild),
        forall|c: u64| #[trigger] occm.contains_key(c) ==> occm[c].subset_of(m[c].members),
    ensures
        after_observe(m, guild, occm, now) == m,
        ended_channels(m, guild, occm) == Set::<u64>::empty(),
{
    let a = after_observe(m, guild, occm, now);
    assert forall|c: u64| a.contains_key(c) <==> m.contains_key(c) by {
        if m.contains_key(c) && m[c].guild == guild {
            assert(occm.contains_key(c));
        }
    }
    assert forall|c: u64| #[trigger] a.contains_key(c) implies a[c] =~= m[c] by {
        if occm.contains_key(c) {
            assert(m.contains_key(c));
            assert(m[c].members.union(occm[c]) =~= m[c].members);
        }
    }
    assert(a =~~= m);
    assert forall|c: u64| !(#[trigger] ended_channels(m, guild, occm).contains(c)) by {
        if m.contains_key(c) && m[c].guild == guild {
            assert(occm.contains_key(c));
        }
    }
    assert(ended_channels(m, guild, occm) =~= Set::<u64>::empty());
}

/// Law: a channel that goes occupied, occupied, empty yields a session
/// whose member set is the union of every occupant ever seen, measured
/// from the first sighting; at the third snapshot the channel is among the
/// ended ones, so `observe` emits exactly one record for it, and its
/// elapsed time `now3 - now1` is non-negative under a monotonic clock.
pub proof fn lemma_session_lifecycle(
    m0: Map<u64, SessView>,
    guild: u64,
    c: u64,
    s1: Set<u64>,
    s2: Set<u64>,
    now1: u64,
    now2: u64,
    now3: u64,
)
    requires
        !m0.contains_key(c),
        now1 <= now2 <= now3,
    ensures
        ({
            let m1 = after_observe(m0, guild, Map::empty().insert(c, s1), now1);
            let m2 = after_observe(m1, guild, Map::empty().insert(c, s2), now2);
            &&& m2.contains_key(c)
            &&& m2[c].guild == guild
            &&& m2[c].members == s1.union(s2)
            &&& m2[c].start == now1
            &&& ended_channels(m2, guild, Map::<u64, Set<u64>>::empty()).contains(c)
            &&& now3 - m2[c].start >= 0
        }),
{
    let occ1 = Map::<u64, Set<u64>>::empty().insert(c, s1);
    let occ2 = Map::<u64, Set<u64>>::empty().insert(c, s2);
    let m1 = after_observe(m0, guild, occ1, now1);
    let m2 = after_observe(m1, guild, occ2, now2);
    assert(m1.contains_key(c));
    assert(m1[c] == SessView { guild, members: s1, start: now1 });
    assert(m2.contains_key(c));
    assert(m2[c] == SessView { guild, members: s1.union(s2), start: now1 });
}

} // verus!
