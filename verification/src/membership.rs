//! The gossip failure detector's local state: a membership view, the merge
//! rule applied to gossiped entries, and the periodic timeout sweep that
//! advances each peer through Alive, Suspected, Failed and removal.

use vstd::prelude::*;

use crate::textutil::bytes_eq;

verus! {

/// Gossip interval, milliseconds.
pub const T_GOSSIP_MS: u64 = 400;

/// Time without a heartbeat after which a peer is considered failed
/// (suspected, in suspicion mode), milliseconds.
pub const T_FAIL_MS: u64 = 3000;

/// Extra time a failed entry lingers before it is removed, milliseconds.
pub const T_CLEANUP_MS: u64 = 4000;

/// Time a suspected peer has to refute suspicion, milliseconds.
pub const T_SUS_TIMEOUT_MS: u64 = 5000;

/// Minimum time between gossip mode switches, milliseconds.
pub const MODE_COOLDOWN_MS: u64 = 10000;

/// How many peers each gossip round sends to.
pub const GOSSIP_NUM: usize = 3;

/// Status of a peer in the local view.
#[derive(Clone, Copy, Debug, PartialEq, Eq, Structural)]
pub enum PeerStatus {
    Alive,
    Failed,
    Suspected,
}

/// One entry of the membership view.  A peer is identified by hostname,
/// port and the timestamp of its process start.
pub struct MemberEntry {
    pub hostname: Vec<u8>,
    pub port: u16,
    /// Unix seconds at which the peer's run started; part of its identity.
    pub timestamp: u64,
    /// Monotonic while the peer lives; the owner sets it to 0 to announce
    /// a voluntary leave.
    pub heartbeat: u32,
    /// Local milliseconds timestamp of the last refresh of this entry.
    pub local_time: u64,
    pub status: PeerStatus,
    /// Incarnation number; only the owner raises its own.
    pub inc_num: u32,
}

/// Two entries describe the same peer run.
pub open spec fn same_id(a: MemberEntry, b: MemberEntry) -> bool {
    a.hostname@ == b.hostname@ && a.port == b.port && a.timestamp == b.timestamp
}

/// The merge rule, applied to the local entry `cur` when an entry `inc`
/// for the same peer arrives in a gossip message.  A newer (or zero)
/// heartbeat refreshes the entry; in suspicion mode status information is
/// merged with the precedence: self-defense, Failed, same-incarnation
/// suspicion, higher incarnation.
pub open spec fn spec_merge(
    cur: MemberEntry,
    inc: MemberEntry,
    suspicion: bool,
    is_self: bool,
    now: u64,
) -> MemberEntry {
    let c1 = if inc.heartbeat > cur.heartbeat || inc.heartbeat == 0 {
        MemberEntry { heartbeat: inc.heartbeat, local_time: now, ..cur }
    } else {
        cur
    };
    if suspicion {
        if is_self && inc.status == PeerStatus::Suspected {
            MemberEntry { inc_num: (c1.inc_num + 1) as u32, ..c1 }
        } else if inc.status == PeerStatus::Failed {
            MemberEntry { status: PeerStatus::Failed, ..c1 }
        } else if inc.inc_num == c1.inc_num && inc.status == PeerStatus::Suspected && c1.status
            != PeerStatus::Failed {
            MemberEntry { status: PeerStatus::Suspected, ..c1 }
        } else if inc.inc_num > c1.inc_num && c1.status != PeerStatus::Failed {
            MemberEntry { status: inc.status, ..c1 }
        } else {
            c1
        }
    } else {
        c1
    }
}

/// An incarnation number never goes down under the merge rule.
pub proof fn lemma_merge_inc_monotonic(
    cur: MemberEntry,
    inc: MemberEntry,
    suspicion: bool,
    is_self: bool,
    now: u64,
)
    requires
        cur.inc_num < u32::MAX,
    ensures
        spec_merge(cur, inc, suspicion, is_self, now).inc_num >= cur.inc_num,
{
}

/// A suspicion claim about the peer itself raises its incarnation: the
/// next outgoing gossip then overrides the suspicion.
pub proof fn lemma_merge_self_defense(cur: MemberEntry, inc: MemberEntry, now: u64)
    requires
        cur.inc_num < u32::MAX,
        inc.status == PeerStatus::Suspected,
    ensures
        spec_merge(cur, inc, true, true, now).inc_num == cur.inc_num + 1,
        spec_merge(cur, inc, true, true, now).status == cur.status,
{
}

/// A leave announcement (heartbeat 0) always takes: after the merge the
/// local entry carries heartbeat 0.
pub proof fn lemma_merge_zero_heartbeat(
    cur: MemberEntry,
    inc: MemberEntry,
    suspicion: bool,
    now: u64,
)
    requires
        inc.heartbeat == 0,
        inc.status != PeerStatus::Suspected,
    ensures
        spec_merge(cur, inc, suspicion, false, now).heartbeat == 0,
{
}

/// The ghost image of one membership entry: the same fields, with the
/// hostname as a byte sequence, so that whole views can be written down
/// in specifications.
pub struct EntryView {
    pub hostname: Seq<u8>,
    pub port: u16,
    pub timestamp: u64,
    pub heartbeat: u32,
    pub local_time: u64,
    pub status: PeerStatus,
    pub inc_num: u32,
}

/// The ghost image of an entry.
pub open spec fn view_of_entry(e: MemberEntry) -> EntryView {
    EntryView {
        hostname: e.hostname@,
        port: e.port,
        timestamp: e.timestamp,
        heartbeat: e.heartbeat,
        local_time: e.local_time,
        status: e.status,
        inc_num: e.inc_num,
    }
}

/// The ghost image of a whole view.
pub open spec fn views_of_entries(s: Seq<MemberEntry>) -> Seq<EntryView> {
    s.map_values(|e: MemberEntry| view_of_entry(e))
}

/// The merge rule on entry images; the same rule as [`spec_merge`].
pub open spec fn spec_merge_view(
    cur: EntryView,
    inc: EntryView,
    suspicion: bool,
    is_self: bool,
    now: u64,
) -> EntryView {
    let c1 = if inc.heartbeat > cur.heartbeat || inc.heartbeat == 0 {
        EntryView { heartbeat: inc.heartbeat, local_time: now, ..cur }
    } else {
        cur
    };
    if suspicion {
        if is_self && inc.status == PeerStatus::Suspected {
            EntryView { inc_num: (c1.inc_num + 1) as u32, ..c1 }
        } else if inc.status == PeerStatus::Failed {
            EntryView { status: PeerStatus::Failed, ..c1 }
        } else if inc.inc_num == c1.inc_num && inc.status == PeerStatus::Suspected && c1.status
            != PeerStatus::Failed {
            EntryView { status: PeerStatus::Suspected, ..c1 }
        } else if inc.inc_num > c1.inc_num && c1.status != PeerStatus::Failed {
            EntryView { status: inc.status, ..c1 }
        } else {
            c1
        }
    } else {
        c1
    }
}

/// Merging and taking the image commute.
pub proof fn lemma_merge_view(
    cur: MemberEntry,
    inc: MemberEntry,
    suspicion: bool,
    is_self: bool,
    now: u64,
)
    ensures
        view_of_entry(spec_merge(cur, inc, suspicion, is_self, now)) == spec_merge_view(
            view_of_entry(cur),
            view_of_entry(inc),
            suspicion,
            is_self,
            now,
        ),
{
}

/// Position of the entry image for a given peer run, or -1.
pub open spec fn vx(s: Seq<EntryView>, h: Seq<u8>, port: u16, ts: u64) -> int
    decreases s.len(),
{
    if s.len() == 0 {
        -1
    } else if s[0].hostname == h && s[0].port == port && s[0].timestamp == ts {
        0
    } else {
        let r = vx(s.drop_first(), h, port, ts);
        if r == -1 {
            -1
        } else {
            r + 1
        }
    }
}

pub proof fn lemma_vx(s: Seq<EntryView>, h: Seq<u8>, port: u16, ts: u64)
    ensures
        vx(s, h, port, ts) == -1 ==> forall|i: int|
            0 <= i < s.len() ==> !((#[trigger] s[i]).hostname == h && s[i].port == port
                && s[i].timestamp == ts),
        vx(s, h, port, ts) != -1 ==> {
            &&& 0 <= vx(s, h, port, ts) < s.len()
            &&& s[vx(s, h, port, ts)].hostname == h
            &&& s[vx(s, h, port, ts)].port == port
            &&& s[vx(s, h, port, ts)].timestamp == ts
            &&& forall|i: int|
                0 <= i < vx(s, h, port, ts) ==> !((#[trigger] s[i]).hostname == h && s[i].port
                    == port && s[i].timestamp == ts)
        },
    decreases s.len(),
{
    if s.len() > 0 && !(s[0].hostname == h && s[0].port == port && s[0].timestamp == ts) {
        lemma_vx(s.drop_first(), h, port, ts);
        let rest = s.drop_first();
        let r = vx(rest, h, port, ts);
        if r == -1 {
            assert forall|i: int| 0 <= i < s.len() implies !((#[trigger] s[i]).hostname == h
                && s[i].port == port && s[i].timestamp == ts) by {
                if i > 0 {
                    assert(s[i] == rest[i - 1]);
                }
            }
        } else {
            assert(s[r + 1] == rest[r]);
            assert forall|i: int| 0 <= i < r + 1 implies !((#[trigger] s[i]).hostname == h
                && s[i].port == port && s[i].timestamp == ts) by {
                if i > 0 {
                    assert(s[i] == rest[i - 1]);
                }
            }
        }
    }
}

/// Merge an incoming entry into the matching local entry.
pub fn merge_entry(
    cur: &mut MemberEntry,
    inc: &MemberEntry,
    suspicion: bool,
    is_self: bool,
    now: u64,
)
    requires
        old(cur).inc_num < u32::MAX,
    ensures
        *final(cur) == spec_merge(*old(cur), *inc, suspicion, is_self, now),
        final(cur).hostname@ == old(cur).hostname@,
        final(cur).port == old(cur).port,
        final(cur).timestamp == old(cur).timestamp,
        final(cur).inc_num >= old(cur).inc_num,
{
    if inc.heartbeat > cur.heartbeat || inc.heartbeat == 0 {
        cur.heartbeat = inc.heartbeat;
        cur.local_time = now;
    }
    if suspicion {
        if is_self && matches!(inc.status, PeerStatus::Suspected) {
            cur.inc_num = cur.inc_num + 1;
        } else if matches!(inc.status, PeerStatus::Failed) {
            cur.status = PeerStatus::Failed;
        } else if inc.inc_num == cur.inc_num && matches!(inc.status, PeerStatus::Suspected)
            && !matches!(cur.status, PeerStatus::Failed) {
            cur.status = PeerStatus::Suspected;
        } else if inc.inc_num > cur.inc_num && !matches!(cur.status, PeerStatus::Failed) {
            cur.status = inc.status;
        }
    }
}

/// What the timeout sweep does to one non-self entry: the new status, or
/// `None` when the entry is to be removed.  `diff` is the time since the
/// entry was last refreshed.
pub open spec fn spec_timeout_step(
    status: PeerStatus,
    heartbeat: u32,
    diff: int,
    suspicion: bool,
) -> Option<PeerStatus> {
    if !suspicion {
        if status == PeerStatus::Failed && diff >= T_FAIL_MS + T_CLEANUP_MS {
            None
        } else if status == PeerStatus::Alive && diff >= T_FAIL_MS {
            Some(PeerStatus::Failed)
        } else if heartbeat == 0 {
            Some(PeerStatus::Failed)
        } else {
            Some(status)
        }
    } else {
        if status == PeerStatus::Alive && diff >= T_FAIL_MS {
            Some(PeerStatus::Suspected)
        } else if status == PeerStatus::Suspected && diff >= T_FAIL_MS + T_SUS_TIMEOUT_MS {
            Some(PeerStatus::Failed)
        } else if status == PeerStatus::Failed && diff >= T_FAIL_MS + T_SUS_TIMEOUT_MS
            + T_CLEANUP_MS {
            None
        } else if heartbeat == 0 {
            Some(PeerStatus::Failed)
        } else {
            Some(status)
        }
    }
}

/// The sweep's action on an entry at time `now`: a clock that ran
/// backwards leaves the entry alone.
pub open spec fn spec_entry_action(e: MemberEntry, suspicion: bool, now: u64) -> Option<
    PeerStatus,
> {
    if now < e.local_time {
        Some(e.status)
    } else {
        spec_timeout_step(e.status, e.heartbeat, now - e.local_time, suspicion)
    }
}

/// Without fresh heartbeats a peer is detected: in normal mode one sweep
/// at or after `T_FAIL` past the last refresh marks an alive entry
/// failed.
pub proof fn lemma_detect_normal(e: MemberEntry, now: u64)
    requires
        e.status == PeerStatus::Alive,
        now >= e.local_time + T_FAIL_MS,
    ensures
        spec_entry_action(e, false, now) == Some(PeerStatus::Failed),
{
}

/// Without fresh heartbeats a peer is detected in suspicion mode in two
/// sweeps: the first, at or after `T_FAIL`, suspects it; the second, at
/// or after `T_FAIL + T_SUS_TIMEOUT`, marks it failed.
pub proof fn lemma_detect_suspicion(e: MemberEntry, t1: u64, t2: u64)
    requires
        e.status == PeerStatus::Alive,
        t1 >= e.local_time + T_FAIL_MS,
        t2 >= e.local_time + T_FAIL_MS + T_SUS_TIMEOUT_MS,
    ensures
        spec_entry_action(e, true, t1) == Some(PeerStatus::Suspected),
        spec_entry_action(
            MemberEntry { status: PeerStatus::Suspected, ..e },
            true,
            t2,
        ) == Some(PeerStatus::Failed),
{
}

/// A peer that announced a voluntary leave (heartbeat 0) is never kept
/// alive: each sweep either marks it failed, suspects it (with the very
/// next sweep marking it failed), or removes it.
pub proof fn lemma_leave_detected(e: MemberEntry, suspicion: bool, now: u64, later: u64)
    requires
        e.heartbeat == 0,
        now >= e.local_time,
    ensures
        spec_entry_action(e, suspicion, now) != Some(PeerStatus::Alive),
        spec_entry_action(e, suspicion, now) == Some(PeerStatus::Suspected) && later
            >= e.local_time ==> spec_entry_action(
            MemberEntry { status: PeerStatus::Suspected, ..e },
            suspicion,
            later,
        ) == Some(PeerStatus::Failed),
{
}

/// The local membership view, plus the gossip mode.
pub struct MembershipList {
    pub entries: Vec<MemberEntry>,
    /// Position of this process's own entry.
    pub self_index: usize,
    /// Whether the suspicion protocol is active.
    pub suspicion: bool,
    /// When the mode last changed, milliseconds.
    pub mode_changed: u64,
}

impl MembershipList {
    /// Well-formedness: the own entry exists, every pair of entries
    /// describes distinct peer runs, incarnation numbers have room to
    /// grow, and hostnames fit a wire slot: nonempty, at most 49 bytes,
    /// no zero byte.
    pub open spec fn wf(self) -> bool {
        &&& self.self_index < self.entries@.len()
        &&& forall|i: int, j: int|
            0 <= i < j < self.entries@.len() ==> !same_id(
                #[trigger] self.entries@[i],
                #[trigger] self.entries@[j],
            )
        &&& forall|i: int|
            0 <= i < self.entries@.len() ==> (#[trigger] self.entries@[i]).inc_num < u32::MAX
        &&& forall|i: int|
            0 <= i < self.entries@.len() ==> {
                let h = (#[trigger] self.entries@[i]).hostname@;
                &&& 0 < h.len() <= 49
                &&& forall|k: int| 0 <= k < h.len() ==> h[k] != 0
            }
    }

    /// The own entry.
    pub open spec fn spec_self_entry(self) -> MemberEntry {
        self.entries@[self.self_index as int]
    }

    /// A fresh view holding only this process's own entry, alive with
    /// heartbeat and incarnation 1.
    pub fn new(hostname: Vec<u8>, port: u16, timestamp: u64, now: u64) -> (r: MembershipList)
        requires
            0 < hostname@.len() <= 49,
            forall|k: int| 0 <= k < hostname@.len() ==> hostname@[k] != 0,
        ensures
            r.wf(),
            r.entries@.len() == 1,
            r.spec_self_entry().hostname@ == hostname@,
            r.spec_self_entry().port == port,
            r.spec_self_entry().timestamp == timestamp,
            r.spec_self_entry().heartbeat == 1,
            r.spec_self_entry().status == PeerStatus::Alive,
            r.spec_self_entry().inc_num == 1,
            !r.suspicion,
    {
        let entry = MemberEntry {
            hostname,
            port,
            timestamp,
            heartbeat: 1,
            local_time: now,
            status: PeerStatus::Alive,
            inc_num: 1,
        };
        let mut entries = Vec::new();
        entries.push(entry);
        MembershipList { entries, self_index: 0, suspicion: false, mode_changed: now }
    }

    /// Index of the entry for the same peer run as `inc`, if any.
    fn find_entry(&self, inc: &MemberEntry) -> (r: Option<usize>)
        ensures
            match r {
                Some(i) => 0 <= i < self.entries@.len() && same_id(self.entries@[i as int], *inc),
                None => forall|i: int|
                    0 <= i < self.entries@.len() ==> !same_id(
                        #[trigger] self.entries@[i],
                        *inc,
                    ),
            },
    {
        let n = self.entries.len();
        for i in 0..n
            invariant
                n == self.entries@.len(),
                forall|j: int| 0 <= j < i ==> !same_id(#[trigger] self.entries@[j], *inc),
        {
            let e = &self.entries[i];
            if e.port == inc.port && e.timestamp == inc.timestamp && bytes_eq(
                &e.hostname,
                &inc.hostname,
            ) {
                return Some(i);
            }
        }
        None
    }

    /// Fold one received entry into the view: a known peer run is merged
    /// under the merge rule, an unknown one is added with its local
    /// refresh time set to now.
    pub fn upsert(&mut self, inc: MemberEntry, now: u64)
        requires
            old(self).wf(),
            0 < inc.hostname@.len() <= 49,
            forall|k: int| 0 <= k < inc.hostname@.len() ==> inc.hostname@[k] != 0,
            inc.inc_num < u32::MAX,
            // Room for one self-defense increment.
            old(self).spec_self_entry().inc_num + 1 < u32::MAX,
        ensures
            final(self).wf(),
            final(self).suspicion == old(self).suspicion,
            final(self).mode_changed == old(self).mode_changed,
            final(self).self_index == old(self).self_index,
            // Known peer: the matching entry is merged, the rest stay.
            (exists|i: int|
                0 <= i < old(self).entries@.len() && same_id(
                    #[trigger] old(self).entries@[i],
                    inc,
                )) ==> {
                &&& final(self).entries@.len() == old(self).entries@.len()
                &&& exists|i: int|
                    {
                        &&& 0 <= i < old(self).entries@.len()
                        &&& same_id(#[trigger] old(self).entries@[i], inc)
                        &&& final(self).entries@ == old(self).entries@.update(
                            i,
                            spec_merge(
                                old(self).entries@[i],
                                inc,
                                old(self).suspicion,
                                i == old(self).self_index,
                                now,
                            ),
                        )
                    }
            },
            // Unknown peer: appended, with its refresh time reset.
            (forall|i: int|
                0 <= i < old(self).entries@.len() ==> !same_id(
                    #[trigger] old(self).entries@[i],
                    inc,
                )) ==> final(self).entries@ == old(self).entries@.push(
                MemberEntry { local_time: now, ..inc },
            ),
            // The own incarnation number never decreases, and one message
            // raises it at most once.
            final(self).spec_self_entry().inc_num >= old(self).spec_self_entry().inc_num,
            final(self).spec_self_entry().inc_num <= old(self).spec_self_entry().inc_num + 1,
            final(self).spec_self_entry().hostname@ == old(
                self,
            ).spec_self_entry().hostname@,
    {
        match self.find_entry(&inc) {
            Some(i) => {
                let ghost entries_before = self.entries@;
                let is_self = i == self.self_index;
                let suspicion = self.suspicion;
                let cur = &mut self.entries[i];
                merge_entry(cur, &inc, suspicion, is_self, now);
                proof {
                    assert(self.entries@ == entries_before.update(
                        i as int,
                        spec_merge(
                            entries_before[i as int],
                            inc,
                            suspicion,
                            i == self.self_index,
                            now,
                        ),
                    ));
                    assert forall|a: int, b: int|
                        0 <= a < b < self.entries@.len() implies !same_id(
                        #[trigger] self.entries@[a],
                        #[trigger] self.entries@[b],
                    ) by {
                        assert(self.entries@[a].hostname@ == entries_before[a].hostname@
                            && self.entries@[a].port == entries_before[a].port
                            && self.entries@[a].timestamp == entries_before[a].timestamp);
                        assert(self.entries@[b].hostname@ == entries_before[b].hostname@
                            && self.entries@[b].port == entries_before[b].port
                            && self.entries@[b].timestamp == entries_before[b].timestamp);
                    }
                    assert(self.entries@[self.self_index as int].inc_num <= entries_before[
                        self.self_index as int].inc_num + 1);
                }
            },
            None => {
                let ghost entries_before = self.entries@;
                let entry = MemberEntry {
                    hostname: inc.hostname,
                    port: inc.port,
                    timestamp: inc.timestamp,
                    heartbeat: inc.heartbeat,
                    local_time: now,
                    status: inc.status,
                    inc_num: inc.inc_num,
                };
                let ghost entryg = entry;
                self.entries.push(entry);
                proof {
                    assert(self.entries@ =~= old(self).entries@.push(
                        MemberEntry { local_time: now, ..inc },
                    ));
                    assert forall|a: int, b: int|
                        0 <= a < b < self.entries@.len() implies !same_id(
                        #[trigger] self.entries@[a],
                        #[trigger] self.entries@[b],
                    ) by {
                        if b == entries_before.len() {
                            assert(self.entries@[a] == entries_before[a]);
                            assert(self.entries@[b] == entryg);
                            assert(!same_id(entries_before[a], inc));
                        }
                    }
                }
            },
        }
    }

    /// Switch the suspicion mode unconditionally (the user asked).
    pub fn set_suspicion(&mut self, on: bool, now: u64)
        requires
            old(self).wf(),
        ensures
            final(self).wf(),
            final(self).suspicion == on,
            final(self).mode_changed == now,
            final(self).entries@ == old(self).entries@,
            final(self).self_index == old(self).self_index,
    {
        self.suspicion = on;
        self.mode_changed = now;
    }

    /// Adopt a mode received in gossip, but only once the cooldown since
    /// the last switch has passed.
    pub fn set_suspicion_with_cooldown(&mut self, on: bool, now: u64)
        requires
            old(self).wf(),
        ensures
            final(self).wf(),
            final(self).entries@ == old(self).entries@,
            final(self).self_index == old(self).self_index,
            now >= old(self).mode_changed && now - old(self).mode_changed >= MODE_COOLDOWN_MS
                ==> final(self).suspicion == on && final(self).mode_changed == now,
            !(now >= old(self).mode_changed && now - old(self).mode_changed
                >= MODE_COOLDOWN_MS) ==> {
                &&& final(self).suspicion == old(self).suspicion
                &&& final(self).mode_changed == old(self).mode_changed
            },
    {
        if now >= self.mode_changed && now - self.mode_changed >= MODE_COOLDOWN_MS {
            self.set_suspicion(on, now);
        }
    }

    /// Announce a voluntary leave: the own heartbeat becomes 0.
    pub fn leave(&mut self)
        requires
            old(self).wf(),
        ensures
            final(self).wf(),
            final(self).spec_self_entry().heartbeat == 0,
            final(self).entries@ == old(self).entries@.update(
                old(self).self_index as int,
                MemberEntry { heartbeat: 0, ..old(self).spec_self_entry() },
            ),
            final(self).self_index == old(self).self_index,
            final(self).suspicion == old(self).suspicion,
    {
        let ghost entries_before = self.entries@;
        let i = self.self_index;
        let e = &mut self.entries[i];
        e.heartbeat = 0;
        proof {
            assert forall|a: int, b: int|
                0 <= a < b < self.entries@.len() implies !same_id(
                #[trigger] self.entries@[a],
                #[trigger] self.entries@[b],
            ) by {
                assert(self.entries@[a].hostname@ == entries_before[a].hostname@
                    && self.entries@[a].port == entries_before[a].port
                    && self.entries@[a].timestamp == entries_before[a].timestamp);
                assert(self.entries@[b].hostname@ == entries_before[b].hostname@
                    && self.entries@[b].port == entries_before[b].port
                    && self.entries@[b].timestamp == entries_before[b].timestamp);
            }
        }
    }

    /// The own heartbeat; 0 once `leave` has been called.
    pub fn self_heartbeat(&self) -> (r: u32)
        requires
            self.wf(),
        ensures
            r == self.spec_self_entry().heartbeat,
    {
        self.entries[self.self_index].heartbeat
    }
}

/// What remains of a membership view after one timeout sweep at time
/// `now`, starting at position `i`: the own entry is kept as it is, every
/// other entry is advanced by `spec_entry_action`, and entries whose
/// action is `None` are dropped.
pub open spec fn spec_sweep_from(
    entries: Seq<MemberEntry>,
    i: int,
    self_i: int,
    suspicion: bool,
    now: u64,
) -> Seq<MemberEntry>
    decreases entries.len() - i,
{
    if i < 0 || i >= entries.len() {
        Seq::empty()
    } else {
        let e = entries[i];
        let rest = spec_sweep_from(entries, i + 1, self_i, suspicion, now);
        if i == self_i {
            seq![e] + rest
        } else {
            match spec_entry_action(e, suspicion, now) {
                Some(s) => seq![MemberEntry { status: s, ..e }] + rest,
                None => rest,
            }
        }
    }
}

impl MembershipList {
    /// One timeout sweep: advance every other peer's state machine by the
    /// time since its last refresh, and drop entries whose cleanup time
    /// has passed.
    #[verifier::rlimit(50)]
    #[verifier::spinoff_prover]
    pub fn sweep(&mut self, now: u64)
        requires
            old(self).wf(),
        ensures
            final(self).wf(),
            final(self).entries@ == spec_sweep_from(
                old(self).entries@,
                0,
                old(self).self_index as int,
                old(self).suspicion,
                now,
            ),
            final(self).spec_self_entry() == old(self).spec_self_entry(),
            final(self).suspicion == old(self).suspicion,
            final(self).mode_changed == old(self).mode_changed,
    {
        let ghost orig = self.entries@;
        let self_orig = self.self_index;
        let ghost self_i = self.self_index as int;
        let suspicion = self.suspicion;
        let mut i = self.entries.len();
        while i > 0
            invariant
                old(self).wf(),
                self.suspicion == suspicion,
                suspicion == old(self).suspicion,
                self.mode_changed == old(self).mode_changed,
                i <= orig.len(),
                orig == old(self).entries@,
                self_i == old(self).self_index as int,
                self_orig as int == self_i,
                0 <= self_i < orig.len(),
                self.entries@ == orig.subrange(0, i as int) + spec_sweep_from(
                    orig,
                    i as int,
                    self_i,
                    suspicion,
                    now,
                ),
                self.self_index < self.entries@.len(),
                self.entries@[self.self_index as int] == orig[self_i],
                forall|a: int, b: int|
                    0 <= a < b < self.entries@.len() ==> !same_id(
                        #[trigger] self.entries@[a],
                        #[trigger] self.entries@[b],
                    ),
                forall|a: int|
                    0 <= a < self.entries@.len() ==> (#[trigger] self.entries@[a]).inc_num
                        < u32::MAX,
                forall|a: int|
                    0 <= a < self.entries@.len() ==> {
                        let h = (#[trigger] self.entries@[a]).hostname@;
                        &&& 0 < h.len() <= 49
                        &&& forall|k: int| 0 <= k < h.len() ==> h[k] != 0
                    },
            decreases i,
        {
            i -= 1;
            if i == self_orig {
                proof {
                    assert(self.entries@ =~= orig.subrange(0, i as int) + spec_sweep_from(
                        orig,
                        i as int,
                        self_i,
                        suspicion,
                        now,
                    ));
                }
                continue;
            }
            let ghost entries_before = self.entries@;
            let keep: Option<PeerStatus> = {
                let e = &self.entries[i];
                if now < e.local_time {
                    Some(e.status)
                } else {
                    let diff = now - e.local_time;
                    let hb = e.heartbeat;
                    let st = e.status;
                    if !suspicion {
                        if matches!(st, PeerStatus::Failed) && diff >= T_FAIL_MS + T_CLEANUP_MS {
                            None
                        } else if matches!(st, PeerStatus::Alive) && diff >= T_FAIL_MS {
                            Some(PeerStatus::Failed)
                        } else if hb == 0 {
                            Some(PeerStatus::Failed)
                        } else {
                            Some(st)
                        }
                    } else {
                        if matches!(st, PeerStatus::Alive) && diff >= T_FAIL_MS {
                            Some(PeerStatus::Suspected)
                        } else if matches!(st, PeerStatus::Suspected) && diff >= T_FAIL_MS
                            + T_SUS_TIMEOUT_MS {
                            Some(PeerStatus::Failed)
                        } else if matches!(st, PeerStatus::Failed) && diff >= T_FAIL_MS
                            + T_SUS_TIMEOUT_MS + T_CLEANUP_MS {
                            None
                        } else if hb == 0 {
                            Some(PeerStatus::Failed)
                        } else {
                            Some(st)
                        }
                    }
                }
            };
            proof {
                assert(entries_before[i as int] == orig[i as int]);
                assert(keep == spec_entry_action(orig[i as int], suspicion, now));
                // The entry at hand is not the own entry: it sits at the
                // untouched prefix position `i`, and two distinct original
                // entries never share an identity.
                assert(i as int != self.self_index as int) by {
                    if i as int == self.self_index as int {
                        assert(self.entries@[i as int] == orig[i as int]);
                        assert(self.entries@[self.self_index as int] == orig[self_i]);
                        assert(orig[i as int] == orig[self_i]);
                        assert(same_id(orig[i as int], orig[self_i]));
                        if (i as int) < self_i {
                            assert(!same_id(orig[i as int], orig[self_i]));
                        } else {
                            assert(!same_id(orig[self_i], orig[i as int]));
                            assert(same_id(orig[self_i], orig[i as int]));
                        }
                    }
                }
            }
            match keep {
                Some(s) => {
                    let e = &mut self.entries[i];
                    e.status = s;
                    proof {
                        assert forall|a: int, b: int|
                            0 <= a < b < self.entries@.len() implies !same_id(
                            #[trigger] self.entries@[a],
                            #[trigger] self.entries@[b],
                        ) by {
                            assert(self.entries@[a].hostname@ == entries_before[a].hostname@
                                && self.entries@[a].port == entries_before[a].port
                                && self.entries@[a].timestamp == entries_before[a].timestamp);
                            assert(self.entries@[b].hostname@ == entries_before[b].hostname@
                                && self.entries@[b].port == entries_before[b].port
                                && self.entries@[b].timestamp == entries_before[b].timestamp);
                        }
                    }
                },
                None => {
                    let ghost si_before = self.self_index as int;
                    self.entries.remove(i);
                    if i < self.self_index {
                        self.self_index -= 1;
                    }
                    proof {
                        if (i as int) < si_before {
                            assert(self.entries@[si_before - 1] == entries_before[si_before]);
                        } else {
                            assert(self.entries@[si_before] == entries_before[si_before]);
                        }
                        assert forall|a: int, b: int|
                            0 <= a < b < self.entries@.len() implies !same_id(
                            #[trigger] self.entries@[a],
                            #[trigger] self.entries@[b],
                        ) by {
                            let a0 = if a < i as int {
                                a
                            } else {
                                a + 1
                            };
                            let b0 = if b < i as int {
                                b
                            } else {
                                b + 1
                            };
                            assert(self.entries@[a] == entries_before[a0]);
                            assert(self.entries@[b] == entries_before[b0]);
                        }
                    }
                },
            }
            proof {
                assert(self.entries@ =~= orig.subrange(0, i as int) + spec_sweep_from(
                    orig,
                    i as int,
                    self_i,
                    suspicion,
                    now,
                ));
            }
        }
        proof {
            assert(self.entries@ =~= spec_sweep_from(orig, 0, self_i, suspicion, now));
        }
    }
}

/// Relies on `rand::Rng::gen_range` over `0..n`: the sample lies in the
/// (nonempty) range.
#[verifier::external_body]
fn random_below(n: usize) -> (r: usize)
    requires
        n > 0,
    ensures
        r < n,
{
    rand::Rng::gen_range(&mut rand::thread_rng(), 0..n)
}

/// How many entries before position `k` are gossip candidates: not the
/// own entry and not marked failed.
pub open spec fn count_peers_upto(entries: Seq<MemberEntry>, self_i: int, k: int) -> nat
    decreases k,
{
    if k <= 0 || k > entries.len() {
        0
    } else {
        count_peers_upto(entries, self_i, k - 1) + (if k - 1 != self_i && entries[k - 1].status
            != PeerStatus::Failed {
            1nat
        } else {
            0nat
        })
    }
}

impl MembershipList {
    /// One gossip round: raise the own heartbeat — unless a leave was
    /// announced, whose zero heartbeat must reach the others unchanged —
    /// and pick the peers to send to: every live peer when there are at
    /// most `GOSSIP_NUM`, and a random subset of `GOSSIP_NUM` of them
    /// otherwise.  The result holds the positions of the chosen entries:
    /// pairwise distinct, never the own entry, never a failed peer.
    pub fn gossip_tick(&mut self, now: u64) -> (targets: Vec<usize>)
        requires
            old(self).wf(),
            old(self).spec_self_entry().heartbeat < u32::MAX,
        ensures
            final(self).wf(),
            final(self).entries@ == old(self).entries@.update(
                old(self).self_index as int,
                MemberEntry {
                    heartbeat: if old(self).spec_self_entry().heartbeat == 0 {
                        0u32
                    } else {
                        (old(self).spec_self_entry().heartbeat + 1) as u32
                    },
                    ..old(self).spec_self_entry()
                },
            ),
            final(self).self_index == old(self).self_index,
            final(self).suspicion == old(self).suspicion,
            final(self).mode_changed == old(self).mode_changed,
            targets@.len() == (if count_peers_upto(
                final(self).entries@,
                final(self).self_index as int,
                final(self).entries@.len() as int,
            ) < GOSSIP_NUM {
                count_peers_upto(
                    final(self).entries@,
                    final(self).self_index as int,
                    final(self).entries@.len() as int,
                )
            } else {
                GOSSIP_NUM as nat
            }),
            forall|t: int|
                0 <= t < targets@.len() ==> {
                    let c = #[trigger] targets@[t];
                    &&& c < final(self).entries@.len()
                    &&& c != final(self).self_index
                    &&& final(self).entries@[c as int].status != PeerStatus::Failed
                },
            forall|t1: int, t2: int|
                0 <= t1 < t2 < targets@.len() ==> targets@[t1] != targets@[t2],
    {
        let ghost entries_before = self.entries@;
        let si = self.self_index;
        let hb = self.entries[si].heartbeat;
        if hb != 0 {
            let e = &mut self.entries[si];
            e.heartbeat = e.heartbeat + 1;
        }
        proof {
            assert(self.entries@ =~= old(self).entries@.update(
                old(self).self_index as int,
                MemberEntry {
                    heartbeat: if old(self).spec_self_entry().heartbeat == 0 {
                        0u32
                    } else {
                        (old(self).spec_self_entry().heartbeat + 1) as u32
                    },
                    ..old(self).spec_self_entry()
                },
            ));
            assert forall|a: int, b: int|
                0 <= a < b < self.entries@.len() implies !same_id(
                #[trigger] self.entries@[a],
                #[trigger] self.entries@[b],
            ) by {
                assert(self.entries@[a].hostname@ == entries_before[a].hostname@
                    && self.entries@[a].port == entries_before[a].port
                    && self.entries@[a].timestamp == entries_before[a].timestamp);
                assert(self.entries@[b].hostname@ == entries_before[b].hostname@
                    && self.entries@[b].port == entries_before[b].port
                    && self.entries@[b].timestamp == entries_before[b].timestamp);
            }
        }

        // Collect the candidate positions, in ascending order.
        let mut cands: Vec<usize> = Vec::new();
        let n = self.entries.len();
        for i in 0..n
            invariant
                n == self.entries@.len(),
                si == self.self_index,
                si < n,
                cands@.len() == count_peers_upto(self.entries@, si as int, i as int),
                forall|k: int|
                    0 <= k < cands@.len() ==> {
                        let c = #[trigger] cands@[k];
                        &&& c < self.entries@.len()
                        &&& c != si
                        &&& self.entries@[c as int].status != PeerStatus::Failed
                    },
                forall|k1: int, k2: int|
                    0 <= k1 < k2 < cands@.len() ==> cands@[k1] < cands@[k2],
                forall|k: int| 0 <= k < cands@.len() ==> #[trigger] cands@[k] < i,
        {
            let is_failed = matches!(self.entries[i].status, PeerStatus::Failed);
            if i != si && !is_failed {
                cands.push(i);
            }
        }
        proof {
            assert(cands@.len() == count_peers_upto(
                self.entries@,
                si as int,
                self.entries@.len() as int,
            ));
        }

        if cands.len() <= GOSSIP_NUM {
            return cands;
        }

        // Draw GOSSIP_NUM distinct positions from the candidate pool.
        let mut pool = cands;
        let mut targets: Vec<usize> = Vec::new();
        while targets.len() < GOSSIP_NUM
            invariant
                si == self.self_index,
                si < self.entries@.len(),
                targets@.len() <= GOSSIP_NUM,
                pool@.len() + targets@.len() >= GOSSIP_NUM,
                forall|k: int|
                    0 <= k < pool@.len() ==> {
                        let c = #[trigger] pool@[k];
                        &&& c < self.entries@.len()
                        &&& c != si
                        &&& self.entries@[c as int].status != PeerStatus::Failed
                    },
                forall|t: int|
                    0 <= t < targets@.len() ==> {
                        let c = #[trigger] targets@[t];
                        &&& c < self.entries@.len()
                        &&& c != si
                        &&& self.entries@[c as int].status != PeerStatus::Failed
                    },
                forall|t1: int, t2: int|
                    0 <= t1 < t2 < targets@.len() ==> targets@[t1] != targets@[t2],
                forall|t: int, k: int|
                    0 <= t < targets@.len() && 0 <= k < pool@.len() ==> targets@[t] != pool@[k],
                forall|k1: int, k2: int|
                    0 <= k1 < k2 < pool@.len() ==> pool@[k1] != pool@[k2],
            decreases GOSSIP_NUM - targets.len(),
        {
            let r = random_below(pool.len());
            let ghost pool_before = pool@;
            let ghost targets_before = targets@;
            let c = pool.remove(r);
            targets.push(c);
            proof {
                assert forall|t: int, k: int|
                    0 <= t < targets@.len() && 0 <= k < pool@.len() implies targets@[t]
                    != pool@[k] by {
                    let k0 = if k < r as int {
                        k
                    } else {
                        k + 1
                    };
                    assert(pool@[k] == pool_before[k0]);
                    if t < targets_before.len() {
                        assert(targets@[t] == targets_before[t]);
                    } else {
                        assert(targets@[t] == pool_before[r as int]);
                        assert(k0 != r as int);
                    }
                }
                assert forall|k1: int, k2: int|
                    0 <= k1 < k2 < pool@.len() implies pool@[k1] != pool@[k2] by {
                    let a0 = if k1 < r as int {
                        k1
                    } else {
                        k1 + 1
                    };
                    let b0 = if k2 < r as int {
                        k2
                    } else {
                        k2 + 1
                    };
                    assert(pool@[k1] == pool_before[a0]);
                    assert(pool@[k2] == pool_before[b0]);
                }
                assert forall|t1: int, t2: int|
                    0 <= t1 < t2 < targets@.len() implies targets@[t1] != targets@[t2] by {
                    if t2 == targets_before.len() {
                        assert(targets@[t1] == targets_before[t1]);
                        assert(targets@[t2] == pool_before[r as int]);
                    }
                }
            }
        }
        targets
    }

    /// The exported alive-set snapshot: one byte per known host, 1 when
    /// some entry with that hostname is not marked failed.
    pub fn alive_snapshot(&self, hosts: &Vec<Vec<u8>>) -> (r: Vec<u8>)
        ensures
            r@.len() == hosts@.len(),
            forall|i: int|
                0 <= i < hosts@.len() ==> ((#[trigger] r@[i]) == 1 <==> exists|j: int|
                    {
                        &&& 0 <= j < self.entries@.len()
                        &&& (#[trigger] self.entries@[j]).hostname@ == hosts@[i]@
                        &&& self.entries@[j].status != PeerStatus::Failed
                    }),
            forall|i: int| 0 <= i < r@.len() ==> (#[trigger] r@[i]) == 1 || r@[i] == 0,
    {
        let mut out: Vec<u8> = Vec::new();
        let n = hosts.len();
        for i in 0..n
            invariant
                n == hosts@.len(),
                out@.len() == i,
                forall|a: int|
                    0 <= a < i ==> ((#[trigger] out@[a]) == 1 <==> exists|j: int|
                        {
                            &&& 0 <= j < self.entries@.len()
                            &&& (#[trigger] self.entries@[j]).hostname@ == hosts@[a]@
                            &&& self.entries@[j].status != PeerStatus::Failed
                        }),
                forall|a: int| 0 <= a < i ==> (#[trigger] out@[a]) == 1 || out@[a] == 0,
        {
            let mut found = false;
            let m = self.entries.len();
            for j in 0..m
                invariant
                    m == self.entries@.len(),
                    i < hosts@.len(),
                    found <==> exists|b: int|
                        {
                            &&& 0 <= b < j
                            &&& (#[trigger] self.entries@[b]).hostname@ == hosts@[i as int]@
                            &&& self.entries@[b].status != PeerStatus::Failed
                        },
            {
                let is_failed = matches!(self.entries[j].status, PeerStatus::Failed);
                if !is_failed && bytes_eq(&self.entries[j].hostname, &hosts[i]) {
                    found = true;
                }
                proof {
                    if found && !(self.entries@[j as int].status != PeerStatus::Failed
                        && self.entries@[j as int].hostname@ == hosts@[i as int]@) {
                        let b = choose|b: int|
                            0 <= b < j && (#[trigger] self.entries@[b]).hostname@ == hosts@[
                                i as int]@ && self.entries@[b].status != PeerStatus::Failed;
                        assert(0 <= b < j + 1 && self.entries@[b].hostname@ == hosts@[i as int]@
                            && self.entries@[b].status != PeerStatus::Failed);
                    }
                }
            }
            out.push(if found {
                1
            } else {
                0
            });
        }
        out
    }
}

} // verus!
