//! The gossip wire format: one fixed 70-byte slot per membership entry,
//! ten slots per datagram.
//!
//! Slot layout, little-endian: hostname (50 bytes, zero-terminated), port
//! (2), start timestamp (8), heartbeat counter (4), status (1), incarnation
//! (4), mode (1).  Unused slots are all zero, and parsing stops at the
//! first slot with an empty hostname.

use vstd::bytes::{
    lemma_auto_spec_u16_to_from_le_bytes, lemma_auto_spec_u32_to_from_le_bytes,
    lemma_auto_spec_u64_to_from_le_bytes, spec_u16_from_le_bytes, spec_u16_to_le_bytes,
    spec_u32_from_le_bytes, spec_u32_to_le_bytes, spec_u64_from_le_bytes, spec_u64_to_le_bytes,
    u16_from_le_bytes, u16_to_le_bytes, u32_from_le_bytes, u32_to_le_bytes, u64_from_le_bytes,
    u64_to_le_bytes,
};
use vstd::prelude::*;
use vstd::slice::slice_subrange;

use crate::membership::{
    lemma_merge_view, lemma_vx, same_id, spec_merge, spec_merge_view, view_of_entry,
    views_of_entries, vx, EntryView, MemberEntry, MembershipList, PeerStatus, MODE_COOLDOWN_MS,
};
use crate::textutil::{first_of, lemma_first_of};

verus! {

/// Size of one entry slot on the wire.
pub const ENTRY_LEN: usize = 70;

/// Bytes reserved for the zero-terminated hostname.
pub const HOSTNAME_LEN: usize = 50;

/// Slots per datagram.
pub const SLOTS_PER_DATAGRAM: usize = 10;

/// Size of a whole gossip datagram.
pub const DATAGRAM_LEN: usize = 700;

/// Wire encoding of a peer status.
pub open spec fn status_to_byte(s: PeerStatus) -> u8 {
    match s {
        PeerStatus::Alive => 0,
        PeerStatus::Failed => 1,
        PeerStatus::Suspected => 2,
    }
}

/// Reading a status byte; an unknown value is read as alive, and a later
/// sweep or merge corrects it.
pub open spec fn byte_to_status(b: u8) -> PeerStatus {
    if b == 1 {
        PeerStatus::Failed
    } else if b == 2 {
        PeerStatus::Suspected
    } else {
        PeerStatus::Alive
    }
}

/// A run of zero bytes.
pub open spec fn zero_bytes(n: int) -> Seq<u8> {
    Seq::new(n as nat, |i: int| 0u8)
}

/// The 70-byte wire image of one entry carrying the given mode byte.
pub open spec fn spec_entry_bytes(e: MemberEntry, mode: u8) -> Seq<u8> {
    e.hostname@ + zero_bytes(HOSTNAME_LEN - e.hostname@.len()) + spec_u16_to_le_bytes(e.port)
        + spec_u64_to_le_bytes(e.timestamp) + spec_u32_to_le_bytes(e.heartbeat) + seq![
        status_to_byte(e.status),
    ] + spec_u32_to_le_bytes(e.inc_num) + seq![mode]
}

/// A hostname that contains no zero byte and fits the field reads back
/// exactly up to its terminator.
pub proof fn lemma_terminator_of_padded(h: Seq<u8>, pad: int)
    requires
        forall|k: int| 0 <= k < h.len() ==> h[k] != 0,
        pad > 0,
    ensures
        first_of(h + zero_bytes(pad), 0) == h.len(),
    decreases h.len(),
{
    let s = h + zero_bytes(pad);
    if h.len() == 0 {
        assert(s[0] == 0);
    } else {
        assert(s[0] == h[0]);
        assert(s[0] != 0);
        lemma_terminator_of_padded(h.drop_first(), pad);
        assert(s.drop_first() =~= h.drop_first() + zero_bytes(pad));
    }
}

/// Build the wire image of one entry.
pub fn populate_entry_bytes(entry: &MemberEntry, mode: u8) -> (r: Vec<u8>)
    requires
        entry.hostname@.len() <= HOSTNAME_LEN,
    ensures
        r@ == spec_entry_bytes(*entry, mode),
        r@.len() == ENTRY_LEN,
{
    let mut out: Vec<u8> = Vec::new();
    let hlen = entry.hostname.len();
    for i in 0..hlen
        invariant
            hlen == entry.hostname@.len(),
            out@ == entry.hostname@.subrange(0, i as int),
    {
        out.push(entry.hostname[i]);
        proof {
            assert(out@ =~= entry.hostname@.subrange(0, i + 1 as int));
        }
    }
    proof {
        assert(out@ =~= entry.hostname@);
    }
    let mut i = hlen;
    while i < HOSTNAME_LEN
        invariant
            entry.hostname@.len() <= i <= HOSTNAME_LEN,
            out@ == entry.hostname@ + zero_bytes(i - entry.hostname@.len()),
        decreases HOSTNAME_LEN - i,
    {
        out.push(0);
        i += 1;
        proof {
            assert(out@ =~= entry.hostname@ + zero_bytes(i - entry.hostname@.len()));
        }
    }
    let mut port_bytes = u16_to_le_bytes(entry.port);
    out.append(&mut port_bytes);
    let mut ts_bytes = u64_to_le_bytes(entry.timestamp);
    out.append(&mut ts_bytes);
    let mut hb_bytes = u32_to_le_bytes(entry.heartbeat);
    out.append(&mut hb_bytes);
    let status = match entry.status {
        PeerStatus::Alive => 0,
        PeerStatus::Failed => 1,
        PeerStatus::Suspected => 2,
    };
    out.push(status);
    let mut inc_bytes = u32_to_le_bytes(entry.inc_num);
    out.append(&mut inc_bytes);
    out.push(mode);
    proof {
        assert(out@ =~= spec_entry_bytes(*entry, mode));
    }
    out
}

/// Read one entry slot starting at `start`.  The entry's local refresh
/// time is set to `now`.
pub fn read_entry_bytes(buf: &Vec<u8>, start: usize, now: u64) -> (r: (u8, MemberEntry))
    requires
        start + ENTRY_LEN <= buf@.len(),
    ensures
        ({
            let slot = buf@.subrange(start as int, start + ENTRY_LEN);
            let hfield = slot.subrange(0, HOSTNAME_LEN as int);
            &&& r.1.hostname@ == hfield.subrange(0, first_of(hfield, 0))
            &&& r.1.port == spec_u16_from_le_bytes(slot.subrange(50, 52))
            &&& r.1.timestamp == spec_u64_from_le_bytes(slot.subrange(52, 60))
            &&& r.1.heartbeat == spec_u32_from_le_bytes(slot.subrange(60, 64))
            &&& r.1.status == byte_to_status(slot[64])
            &&& r.1.inc_num == spec_u32_from_le_bytes(slot.subrange(65, 69))
            &&& r.1.local_time == now
            &&& r.0 == slot[69]
        }),
{
    let ghost slot = buf@.subrange(start as int, start + ENTRY_LEN);
    let ghost hfield = slot.subrange(0, HOSTNAME_LEN as int);
    proof {
        lemma_first_of(hfield, 0);
    }
    let blen = buf.len();
    let mut hostname: Vec<u8> = Vec::new();
    let mut i: usize = 0;
    let mut terminated = false;
    while i < HOSTNAME_LEN && !terminated
        invariant
            blen == buf@.len(),
            start + ENTRY_LEN <= blen,
            slot == buf@.subrange(start as int, start + ENTRY_LEN),
            hfield == slot.subrange(0, HOSTNAME_LEN as int),
            i <= HOSTNAME_LEN,
            !terminated ==> {
                &&& i <= first_of(hfield, 0)
                &&& hostname@ == hfield.subrange(0, i as int)
            },
            terminated ==> {
                &&& i - 1 == first_of(hfield, 0)
                &&& hostname@ == hfield.subrange(0, first_of(hfield, 0))
            },
            0 <= first_of(hfield, 0) <= hfield.len(),
            forall|k: int| 0 <= k < first_of(hfield, 0) ==> hfield[k] != 0,
            first_of(hfield, 0) < hfield.len() ==> hfield[first_of(hfield, 0)] == 0,
        decreases HOSTNAME_LEN - i + (if terminated {
            0int
        } else {
            1int
        }),
    {
        let b = buf[start + i];
        proof {
            assert(hfield[i as int] == buf@[start + i]);
        }
        if b == 0 {
            terminated = true;
            proof {
                assert(first_of(hfield, 0) == i as int);
            }
            i += 1;
        } else {
            hostname.push(b);
            i += 1;
            proof {
                assert(hostname@ =~= hfield.subrange(0, i as int));
                assert(first_of(hfield, 0) >= i as int);
            }
        }
    }
    proof {
        if !terminated {
            assert(i == HOSTNAME_LEN);
            assert(first_of(hfield, 0) == HOSTNAME_LEN as int);
            assert(hostname@ == hfield.subrange(0, first_of(hfield, 0)));
        }
    }
    proof {
        assert(start + ENTRY_LEN <= blen);
    }
    let whole = buf.as_slice();
    let port_slice = slice_subrange(whole, start + 50, start + 52);
    let port = u16_from_le_bytes(port_slice);
    let ts_slice = slice_subrange(whole, start + 52, start + 60);
    let timestamp = u64_from_le_bytes(ts_slice);
    let hb_slice = slice_subrange(whole, start + 60, start + 64);
    let heartbeat = u32_from_le_bytes(hb_slice);
    let status_byte = buf[start + 64];
    let status = if status_byte == 1 {
        PeerStatus::Failed
    } else if status_byte == 2 {
        PeerStatus::Suspected
    } else {
        PeerStatus::Alive
    };
    let inc_slice = slice_subrange(whole, start + 65, start + 69);
    let inc_num = u32_from_le_bytes(inc_slice);
    let mode = buf[start + 69];
    proof {
        assert(buf@.subrange(start + 50, start + 52) =~= slot.subrange(50, 52));
        assert(buf@.subrange(start + 52, start + 60) =~= slot.subrange(52, 60));
        assert(buf@.subrange(start + 60, start + 64) =~= slot.subrange(60, 64));
        assert(buf@.subrange(start + 65, start + 69) =~= slot.subrange(65, 69));
        assert(buf@[start + 64] == slot[64]);
        assert(buf@[start + 69] == slot[69]);
    }
    (
        mode,
        MemberEntry {
            hostname,
            port,
            timestamp,
            heartbeat,
            local_time: now,
            status,
            inc_num,
        },
    )
}

/// Encoding then decoding a well-formed entry gives back every field (the
/// local refresh time is deliberately replaced by the receiver's clock).
pub proof fn lemma_entry_bytes_round_trip(e: MemberEntry, mode: u8)
    requires
        0 < e.hostname@.len() <= 49,
        forall|k: int| 0 <= k < e.hostname@.len() ==> e.hostname@[k] != 0,
    ensures
        ({
            let slot = spec_entry_bytes(e, mode);
            let hfield = slot.subrange(0, HOSTNAME_LEN as int);
            &&& slot.len() == ENTRY_LEN
            &&& hfield.subrange(0, first_of(hfield, 0)) == e.hostname@
            &&& spec_u16_from_le_bytes(slot.subrange(50, 52)) == e.port
            &&& spec_u64_from_le_bytes(slot.subrange(52, 60)) == e.timestamp
            &&& spec_u32_from_le_bytes(slot.subrange(60, 64)) == e.heartbeat
            &&& byte_to_status(slot[64]) == e.status
            &&& spec_u32_from_le_bytes(slot.subrange(65, 69)) == e.inc_num
            &&& slot[69] == mode
        }),
{
    lemma_auto_spec_u16_to_from_le_bytes();
    lemma_auto_spec_u32_to_from_le_bytes();
    lemma_auto_spec_u64_to_from_le_bytes();
    let slot = spec_entry_bytes(e, mode);
    let hlen = e.hostname@.len() as int;
    assert(slot.len() == ENTRY_LEN);
    let hfield = slot.subrange(0, HOSTNAME_LEN as int);
    assert(hfield =~= e.hostname@ + zero_bytes(HOSTNAME_LEN - hlen));
    lemma_terminator_of_padded(e.hostname@, HOSTNAME_LEN - hlen);
    assert(hfield.subrange(0, first_of(hfield, 0)) =~= e.hostname@);
    assert(slot.subrange(50, 52) =~= spec_u16_to_le_bytes(e.port));
    assert(slot.subrange(52, 60) =~= spec_u64_to_le_bytes(e.timestamp));
    assert(slot.subrange(60, 64) =~= spec_u32_to_le_bytes(e.heartbeat));
    assert(slot[64] == status_to_byte(e.status));
    assert(slot.subrange(65, 69) =~= spec_u32_to_le_bytes(e.inc_num));
    assert(slot[69] == mode);
}

/// The gossip mode as a wire byte.
pub open spec fn mode_byte(suspicion: bool) -> u8 {
    if suspicion {
        1
    } else {
        0
    }
}

/// The entries a datagram carries: everything not marked failed, in list
/// order.
pub open spec fn spec_live(entries: Seq<MemberEntry>) -> Seq<MemberEntry>
    decreases entries.len(),
{
    if entries.len() == 0 {
        Seq::empty()
    } else {
        spec_live(entries.drop_last()) + (if entries.last().status != PeerStatus::Failed {
            seq![entries.last()]
        } else {
            Seq::empty()
        })
    }
}

pub proof fn lemma_spec_live_len(entries: Seq<MemberEntry>)
    ensures
        spec_live(entries).len() <= entries.len(),
    decreases entries.len(),
{
    if entries.len() > 0 {
        lemma_spec_live_len(entries.drop_last());
    }
}

/// Serialize the view into one 700-byte datagram: one slot per non-failed
/// entry, in order, the rest zero.  The caller keeps the view small
/// enough for its live entries to fit.
pub fn build_datagram(list: &MembershipList) -> (r: Vec<u8>)
    requires
        list.wf(),
        spec_live(list.entries@).len() <= SLOTS_PER_DATAGRAM,
    ensures
        r@.len() == DATAGRAM_LEN,
        forall|k: int|
            0 <= k < spec_live(list.entries@).len() ==> #[trigger] r@.subrange(
                k * 70,
                k * 70 + 70,
            ) == spec_entry_bytes(spec_live(list.entries@)[k], mode_byte(list.suspicion)),
        forall|k: int|
            spec_live(list.entries@).len() <= k < SLOTS_PER_DATAGRAM ==> #[trigger] r@.subrange(
                k * 70,
                k * 70 + 70,
            ) =~= zero_bytes(70),
    {
        let mode: u8 = if list.suspicion {
            1
        } else {
            0
        };
        let mut out: Vec<u8> = Vec::new();
        let mut count: usize = 0;
        let n = list.entries.len();
        for i in 0..n
            invariant
                n == list.entries@.len(),
                list.wf(),
                mode == mode_byte(list.suspicion),
                spec_live(list.entries@).len() <= SLOTS_PER_DATAGRAM,
                count == spec_live(list.entries@.subrange(0, i as int)).len(),
                count <= SLOTS_PER_DATAGRAM,
                out@.len() == count * 70,
                forall|k: int|
                    0 <= k < count ==> #[trigger] out@.subrange(k * 70, k * 70 + 70)
                        == spec_entry_bytes(
                        spec_live(list.entries@.subrange(0, i as int))[k],
                        mode,
                    ),
        {
            let ghost prefix = list.entries@.subrange(0, i as int);
            let ghost prefix1 = list.entries@.subrange(0, i + 1 as int);
            proof {
                assert(prefix1.drop_last() =~= prefix);
                assert(prefix1.last() == list.entries@[i as int]);
                lemma_live_prefix_bound(list.entries@, i + 1 as int);
            }
            let is_failed = matches!(list.entries[i].status, PeerStatus::Failed);
            if !is_failed {
                let ghost out_prev = out@;
                let mut slot = populate_entry_bytes(&list.entries[i], mode);
                out.append(&mut slot);
                count += 1;
                proof {
                    assert(spec_live(prefix1) =~= spec_live(prefix) + seq![
                        list.entries@[i as int],
                    ]);
                    assert forall|k: int| 0 <= k < count implies #[trigger] out@.subrange(
                        k * 70,
                        k * 70 + 70,
                    ) == spec_entry_bytes(spec_live(prefix1)[k], mode) by {
                        if k < count - 1 {
                            assert(out@.subrange(k * 70, k * 70 + 70) =~= out_prev.subrange(
                                k * 70,
                                k * 70 + 70,
                            ));
                            assert(spec_live(prefix1)[k] == spec_live(prefix)[k]);
                        } else {
                            assert(out@.subrange(k * 70, k * 70 + 70) =~= spec_entry_bytes(
                                list.entries@[i as int],
                                mode,
                            ));
                            assert(spec_live(prefix1)[k] == list.entries@[i as int]);
                        }
                    }
                }
            } else {
                proof {
                    assert(spec_live(prefix1) =~= spec_live(prefix));
                }
            }
        }
        proof {
            assert(list.entries@.subrange(0, n as int) =~= list.entries@);
        }
        let ghost live = spec_live(list.entries@);
        let ghost filled = count;
        let mut j = count * 70;
        while j < DATAGRAM_LEN
            invariant
                filled == live.len(),
                filled <= SLOTS_PER_DATAGRAM,
                filled * 70 <= j <= DATAGRAM_LEN,
                out@.len() == j,
                forall|k: int|
                    0 <= k < filled ==> #[trigger] out@.subrange(k * 70, k * 70 + 70)
                        == spec_entry_bytes(live[k], mode_byte(list.suspicion)),
                forall|b: int| filled * 70 <= b < j ==> #[trigger] out@[b] == 0,
            decreases DATAGRAM_LEN - j,
        {
            let ghost out_prev = out@;
            out.push(0);
            j += 1;
            proof {
                assert forall|k: int| 0 <= k < filled implies #[trigger] out@.subrange(
                    k * 70,
                    k * 70 + 70,
                ) == spec_entry_bytes(live[k], mode_byte(list.suspicion)) by {
                    assert(out@.subrange(k * 70, k * 70 + 70) =~= out_prev.subrange(
                        k * 70,
                        k * 70 + 70,
                    ));
                }
            }
        }
        proof {
            assert forall|k: int| filled <= k < SLOTS_PER_DATAGRAM implies #[trigger] out@.subrange(
                k * 70,
                k * 70 + 70,
            ) =~= zero_bytes(70) by {
                assert forall|b: int| 0 <= b < 70 implies #[trigger] out@.subrange(
                    k * 70,
                    k * 70 + 70,
                )[b] == 0 by {
                    assert(out@[k * 70 + b] == 0);
                }
            }
        }
        out
    }

/// The live prefix of a longer prefix is no longer than the whole.
pub proof fn lemma_live_prefix_bound(entries: Seq<MemberEntry>, i: int)
    requires
        0 <= i <= entries.len(),
    ensures
        spec_live(entries.subrange(0, i)).len() <= spec_live(entries).len(),
    decreases entries.len() - i,
{
    if i < entries.len() {
        lemma_live_prefix_bound(entries, i + 1);
        let p1 = entries.subrange(0, i + 1);
        assert(p1.drop_last() =~= entries.subrange(0, i));
    } else {
        assert(entries.subrange(0, i) =~= entries);
    }
}

/// The bytes of slot `k` of a datagram.
pub open spec fn slot_bytes(buf: Seq<u8>, k: int) -> Seq<u8> {
    buf.subrange(k * 70, k * 70 + 70)
}

/// The hostname carried by slot `k`: the bytes up to the terminator.
pub open spec fn slot_hostname(buf: Seq<u8>, k: int) -> Seq<u8> {
    let hfield = slot_bytes(buf, k).subrange(0, HOSTNAME_LEN as int);
    hfield.subrange(0, first_of(hfield, 0))
}

/// The port carried by slot `k`.
pub open spec fn slot_port(buf: Seq<u8>, k: int) -> u16 {
    spec_u16_from_le_bytes(slot_bytes(buf, k).subrange(50, 52))
}

/// The run timestamp carried by slot `k`.
pub open spec fn slot_timestamp(buf: Seq<u8>, k: int) -> u64 {
    spec_u64_from_le_bytes(slot_bytes(buf, k).subrange(52, 60))
}

/// The incarnation number carried by slot `k`.
pub open spec fn slot_inc(buf: Seq<u8>, k: int) -> u32 {
    spec_u32_from_le_bytes(slot_bytes(buf, k).subrange(65, 69))
}

/// The heartbeat counter carried by slot `k`.
pub open spec fn slot_heartbeat(buf: Seq<u8>, k: int) -> u32 {
    spec_u32_from_le_bytes(slot_bytes(buf, k).subrange(60, 64))
}

/// The status carried by slot `k`.
pub open spec fn slot_status(buf: Seq<u8>, k: int) -> PeerStatus {
    byte_to_status(slot_bytes(buf, k)[64])
}

/// The mode byte carried by slot `k`.
pub open spec fn slot_mode(buf: Seq<u8>, k: int) -> u8 {
    slot_bytes(buf, k)[69]
}

/// The entry image slot `k` denotes, refreshed at `now`.
pub open spec fn slot_entry_view(buf: Seq<u8>, k: int, now: u64) -> EntryView {
    EntryView {
        hostname: slot_hostname(buf, k),
        port: slot_port(buf, k),
        timestamp: slot_timestamp(buf, k),
        heartbeat: slot_heartbeat(buf, k),
        local_time: now,
        status: slot_status(buf, k),
        inc_num: slot_inc(buf, k),
    }
}

/// The ghost image of a whole membership list: the entry images and the
/// mode fields.
pub struct ViewState {
    pub entries: Seq<EntryView>,
    pub suspicion: bool,
    pub mode_changed: u64,
}

/// The image of a list.
pub open spec fn state_of_list(l: MembershipList) -> ViewState {
    ViewState {
        entries: views_of_entries(l.entries@),
        suspicion: l.suspicion,
        mode_changed: l.mode_changed,
    }
}

/// The listener's fold over a datagram, one slot at a time from slot
/// `k`: stop at the first empty hostname; adopt a differing mode byte
/// once the cooldown allows; then merge the carried entry under the
/// merge rule — refreshing a known run, appending an unknown one — while
/// dropping malformed slots.
pub open spec fn spec_apply_slots(
    st: ViewState,
    self_i: int,
    buf: Seq<u8>,
    k: int,
    now: u64,
) -> ViewState
    decreases SLOTS_PER_DATAGRAM - k,
{
    if k < 0 || k >= SLOTS_PER_DATAGRAM {
        st
    } else if slot_hostname(buf, k).len() == 0 {
        st
    } else {
        spec_apply_slots(
            spec_apply_slot_entry(spec_apply_slot_mode(st, buf, k, now), self_i, buf, k, now),
            self_i,
            buf,
            k + 1,
            now,
        )
    }
}

/// The mode half of one slot: adopt a differing mode byte once the
/// cooldown allows.
pub open spec fn spec_apply_slot_mode(st: ViewState, buf: Seq<u8>, k: int, now: u64) -> ViewState {
    if slot_mode(buf, k) != mode_byte(st.suspicion) && now >= st.mode_changed && now
        - st.mode_changed >= MODE_COOLDOWN_MS {
        ViewState { suspicion: slot_mode(buf, k) == 1, mode_changed: now, ..st }
    } else {
        st
    }
}

/// The entry half of one slot: merge a well-formed carried entry into
/// the view — refreshing a known run, appending an unknown one — and
/// drop a malformed slot.
pub open spec fn spec_apply_slot_entry(
    st1: ViewState,
    self_i: int,
    buf: Seq<u8>,
    k: int,
    now: u64,
) -> ViewState {
    if slot_hostname(buf, k).len() <= 49 && slot_inc(buf, k) < u32::MAX {
        let inc = slot_entry_view(buf, k, now);
        let i = vx(st1.entries, inc.hostname, inc.port, inc.timestamp);
        if i == -1 {
            ViewState { entries: st1.entries.push(inc), ..st1 }
        } else {
            ViewState {
                entries: st1.entries.update(
                    i,
                    spec_merge_view(st1.entries[i], inc, st1.suspicion, i == self_i, now),
                ),
                ..st1
            }
        }
    } else {
        st1
    }
}

/// Whether the view holds an entry for the given peer run.
pub open spec fn id_in_view(entries: Seq<MemberEntry>, h: Seq<u8>, port: u16, ts: u64) -> bool {
    exists|j: int|
        0 <= j < entries.len() && (#[trigger] entries[j]).hostname@ == h && entries[j].port
            == port && entries[j].timestamp == ts
}

/// Whether slot `k` must be folded into the view: no earlier slot is the
/// end-of-payload sentinel, and the slot itself is well-formed (its
/// hostname fits the field, its incarnation number has room to grow).
pub open spec fn slot_carried(buf: Seq<u8>, k: int) -> bool {
    &&& forall|j: int| 0 <= j <= k ==> #[trigger] slot_hostname(buf, j).len() > 0
    &&& slot_hostname(buf, k).len() <= 49
    &&& slot_inc(buf, k) < u32::MAX
}

/// Fold one received datagram into the view: decode up to ten slots,
/// stop at the first empty hostname, adopt a changed mode once the
/// cooldown allows, and merge each carried entry.  Slots whose hostname
/// overflows its field or whose incarnation number is at its ceiling are
/// dropped, as gossip errors are.
pub fn apply_datagram(list: &mut MembershipList, buf: &Vec<u8>, now: u64)
    requires
        old(list).wf(),
        buf@.len() >= DATAGRAM_LEN,
        old(list).spec_self_entry().inc_num + SLOTS_PER_DATAGRAM + 1 < u32::MAX,
    ensures
        final(list).wf(),
        // The own incarnation number never decreases.
        final(list).spec_self_entry().inc_num >= old(list).spec_self_entry().inc_num,
        final(list).spec_self_entry().hostname@ == old(list).spec_self_entry().hostname@,
        // Every peer run named by a carried slot is now in the view.
        forall|k: int|
            0 <= k < SLOTS_PER_DATAGRAM && #[trigger] slot_carried(buf@, k) ==> id_in_view(
                final(list).entries@,
                slot_hostname(buf@, k),
                slot_port(buf@, k),
                slot_timestamp(buf@, k),
            ),
        // No entry is lost by receiving gossip.
        forall|j: int|
            0 <= j < old(list).entries@.len() ==> id_in_view(
                final(list).entries@,
                (#[trigger] old(list).entries@[j]).hostname@,
                old(list).entries@[j].port,
                old(list).entries@[j].timestamp,
            ),
        // The final view is exactly the in-order fold of the slots
        // through the mode rule and the merge rule.
        state_of_list(*final(list)) == spec_apply_slots(
            state_of_list(*old(list)),
            old(list).self_index as int,
            buf@,
            0,
            now,
        ),
        final(list).self_index == old(list).self_index,
        // The mode follows a received mode byte only after the cooldown.
        (final(list).suspicion == old(list).suspicion && final(list).mode_changed == old(
            list,
        ).mode_changed) || (final(list).mode_changed == now && now >= old(list).mode_changed
            && now - old(list).mode_changed >= crate::membership::MODE_COOLDOWN_MS),
{
    let ghost self_i = old(list).self_index as int;
    let ghost total = spec_apply_slots(state_of_list(*old(list)), self_i, buf@, 0, now);
    let mut slot: usize = 0;
    let mut done = false;
    proof {
        assert forall|j: int| 0 <= j < old(list).entries@.len() implies id_in_view(
            list.entries@,
            (#[trigger] old(list).entries@[j]).hostname@,
            old(list).entries@[j].port,
            old(list).entries@[j].timestamp,
        ) by {
            assert(list.entries@[j].hostname@ == old(list).entries@[j].hostname@);
        }
    }
    while slot < SLOTS_PER_DATAGRAM && !done
        invariant
            buf@.len() >= DATAGRAM_LEN,
            slot <= SLOTS_PER_DATAGRAM,
            list.wf(),
            list.spec_self_entry().inc_num >= old(list).spec_self_entry().inc_num,
            list.spec_self_entry().inc_num <= old(list).spec_self_entry().inc_num + slot,
            old(list).spec_self_entry().inc_num + SLOTS_PER_DATAGRAM + 1 < u32::MAX,
            list.spec_self_entry().hostname@ == old(list).spec_self_entry().hostname@,
            done ==> slot >= 1 && slot_hostname(buf@, slot - 1).len() == 0,
            forall|k: int|
                0 <= k < slot && #[trigger] slot_carried(buf@, k) ==> id_in_view(
                    list.entries@,
                    slot_hostname(buf@, k),
                    slot_port(buf@, k),
                    slot_timestamp(buf@, k),
                ),
            forall|j: int|
                0 <= j < old(list).entries@.len() ==> id_in_view(
                    list.entries@,
                    (#[trigger] old(list).entries@[j]).hostname@,
                    old(list).entries@[j].port,
                    old(list).entries@[j].timestamp,
                ),
            (list.suspicion == old(list).suspicion && list.mode_changed == old(
                list,
            ).mode_changed) || (list.mode_changed == now && now >= old(list).mode_changed && now
                - old(list).mode_changed >= crate::membership::MODE_COOLDOWN_MS),
            list.self_index as int == self_i,
            self_i == old(list).self_index as int,
            total == spec_apply_slots(state_of_list(*old(list)), self_i, buf@, 0, now),
            !done ==> spec_apply_slots(state_of_list(*list), self_i, buf@, slot as int, now)
                == total,
            done ==> state_of_list(*list) == total,
        decreases SLOTS_PER_DATAGRAM - slot + (if done {
            0int
        } else {
            1int
        }),
    {
        let ghost st_pre = state_of_list(*list);
        let (slot_mode, entry) = read_entry_bytes(buf, slot * ENTRY_LEN, now);
        proof {
            assert(buf@.subrange(slot * ENTRY_LEN as int, slot * ENTRY_LEN + ENTRY_LEN)
                == slot_bytes(buf@, slot as int));
            assert(entry.hostname@ == slot_hostname(buf@, slot as int));
            assert(entry.port == slot_port(buf@, slot as int));
            assert(entry.timestamp == slot_timestamp(buf@, slot as int));
            assert(entry.heartbeat == slot_heartbeat(buf@, slot as int));
            assert(entry.status == slot_status(buf@, slot as int));
            assert(entry.inc_num == slot_inc(buf@, slot as int));
            assert(slot_mode == crate::wire::slot_mode(buf@, slot as int));
        }
        if entry.hostname.len() == 0 {
            done = true;
            proof {
                assert(spec_apply_slots(st_pre, self_i, buf@, slot as int, now) == st_pre);
                assert forall|k: int|
                    0 <= k < slot + 1 && #[trigger] slot_carried(buf@, k) implies id_in_view(
                    list.entries@,
                    slot_hostname(buf@, k),
                    slot_port(buf@, k),
                    slot_timestamp(buf@, k),
                ) by {
                    if k == slot as int {
                        assert(slot_hostname(buf@, k).len() > 0);
                        assert(false);
                    }
                }
            }
        } else {
            let cur_mode: u8 = if list.suspicion {
                1
            } else {
                0
            };
            if slot_mode != cur_mode {
                list.set_suspicion_with_cooldown(slot_mode == 1, now);
            }
            proof {
                // The mode fields now match the fold's first half-step.
                let st1 = spec_apply_slot_mode(st_pre, buf@, slot as int, now);
                assert(state_of_list(*list) == st1);
            }
            let hlen = entry.hostname.len();
            if hlen <= 49 && entry.inc_num < u32::MAX {
                let ghost entries_before = list.entries@;
                let ghost entg = entry;
                let ghost susp_before = list.suspicion;
                let ghost si_before = list.self_index as int;
                proof {
                    let sb = slot_bytes(buf@, slot as int);
                    let hfield = sb.subrange(0, HOSTNAME_LEN as int);
                    lemma_first_of(hfield, 0);
                    assert forall|k: int| 0 <= k < entry.hostname@.len() implies entry.hostname@[k]
                        != 0 by {
                        assert(entry.hostname@[k] == hfield[k]);
                    }
                }
                list.upsert(entry, now);
                proof {
                    let st1 = spec_apply_slot_mode(st_pre, buf@, slot as int, now);
                    lemma_upsert_matches_fold(
                        entries_before,
                        list.entries@,
                        entg,
                        susp_before,
                        si_before,
                        now,
                    );
                    assert(view_of_entry(entg) == slot_entry_view(buf@, slot as int, now));
                    assert(st1.entries == views_of_entries(entries_before));
                    assert(state_of_list(*list) == spec_apply_slot_entry(
                        st1,
                        self_i,
                        buf@,
                        slot as int,
                        now,
                    ));
                    assert(spec_apply_slots(st_pre, self_i, buf@, slot as int, now)
                        == spec_apply_slots(state_of_list(*list), self_i, buf@, slot + 1, now));
                    lemma_upsert_keeps_ids(
                        entries_before,
                        list.entries@,
                        entg,
                        susp_before,
                        si_before,
                        now,
                    );
                    assert(id_in_view(
                        list.entries@,
                        slot_hostname(buf@, slot as int),
                        slot_port(buf@, slot as int),
                        slot_timestamp(buf@, slot as int),
                    ));
                    assert forall|k: int|
                        0 <= k < slot + 1 && #[trigger] slot_carried(buf@, k) implies id_in_view(
                        list.entries@,
                        slot_hostname(buf@, k),
                        slot_port(buf@, k),
                        slot_timestamp(buf@, k),
                    ) by {
                        if k < slot as int {
                            assert(id_in_view(
                                entries_before,
                                slot_hostname(buf@, k),
                                slot_port(buf@, k),
                                slot_timestamp(buf@, k),
                            ));
                        }
                    }
                    assert forall|j: int| 0 <= j < old(list).entries@.len() implies id_in_view(
                        list.entries@,
                        (#[trigger] old(list).entries@[j]).hostname@,
                        old(list).entries@[j].port,
                        old(list).entries@[j].timestamp,
                    ) by {
                        assert(id_in_view(
                            entries_before,
                            old(list).entries@[j].hostname@,
                            old(list).entries@[j].port,
                            old(list).entries@[j].timestamp,
                        ));
                    }
                }
            } else {
                proof {
                    let st1 = spec_apply_slot_mode(st_pre, buf@, slot as int, now);
                    assert(state_of_list(*list) == st1);
                    assert(spec_apply_slot_entry(st1, self_i, buf@, slot as int, now) == st1);
                    assert(spec_apply_slots(st_pre, self_i, buf@, slot as int, now)
                        == spec_apply_slots(state_of_list(*list), self_i, buf@, slot + 1, now));
                    assert forall|k: int|
                        0 <= k < slot + 1 && #[trigger] slot_carried(buf@, k) implies id_in_view(
                        list.entries@,
                        slot_hostname(buf@, k),
                        slot_port(buf@, k),
                        slot_timestamp(buf@, k),
                    ) by {
                        if k == slot as int {
                            assert(slot_hostname(buf@, k).len() <= 49);
                            assert(slot_inc(buf@, k) < u32::MAX);
                            assert(false);
                        }
                    }
                }
            }
        }
        slot += 1;
    }
    proof {
        if slot < SLOTS_PER_DATAGRAM {
            assert forall|k: int|
                0 <= k < SLOTS_PER_DATAGRAM && #[trigger] slot_carried(buf@, k) implies id_in_view(
                list.entries@,
                slot_hostname(buf@, k),
                slot_port(buf@, k),
                slot_timestamp(buf@, k),
            ) by {
                if k >= slot as int {
                    assert(slot_hostname(buf@, slot - 1).len() > 0);
                    assert(false);
                }
            }
        }
        if !done {
            assert(slot == SLOTS_PER_DATAGRAM);
            assert(spec_apply_slots(state_of_list(*list), self_i, buf@, slot as int, now)
                == state_of_list(*list));
        }
    }
}

/// What `upsert` did to the view is exactly one entry half-step of the
/// datagram fold.
pub proof fn lemma_upsert_matches_fold(
    before: Seq<MemberEntry>,
    after: Seq<MemberEntry>,
    entg: MemberEntry,
    susp: bool,
    self_i: int,
    now: u64,
)
    requires
        entg.local_time == now,
        forall|a: int, b: int|
            0 <= a < b < before.len() ==> !same_id(#[trigger] before[a], #[trigger] before[b]),
        (exists|i: int| 0 <= i < before.len() && same_id(#[trigger] before[i], entg))
            ==> exists|i: int|
            {
                &&& 0 <= i < before.len()
                &&& same_id(#[trigger] before[i], entg)
                &&& after == before.update(
                    i,
                    spec_merge(before[i], entg, susp, i == self_i, now),
                )
            },
        (forall|i: int| 0 <= i < before.len() ==> !same_id(#[trigger] before[i], entg))
            ==> after == before.push(MemberEntry { local_time: now, ..entg }),
    ensures
        views_of_entries(after) == ({
            let vs = views_of_entries(before);
            let inc = view_of_entry(entg);
            let i = vx(vs, inc.hostname, inc.port, inc.timestamp);
            if i == -1 {
                vs.push(inc)
            } else {
                vs.update(i, spec_merge_view(vs[i], inc, susp, i == self_i, now))
            }
        }),
{
    let vs = views_of_entries(before);
    let inc = view_of_entry(entg);
    lemma_vx(vs, inc.hostname, inc.port, inc.timestamp);
    let iv = vx(vs, inc.hostname, inc.port, inc.timestamp);
    if exists|i: int| 0 <= i < before.len() && same_id(#[trigger] before[i], entg) {
        let i = choose|i: int|
            {
                &&& 0 <= i < before.len()
                &&& same_id(#[trigger] before[i], entg)
                &&& after == before.update(
                    i,
                    spec_merge(before[i], entg, susp, i == self_i, now),
                )
            };
        assert(vs[i] == view_of_entry(before[i]));
        assert(vs[i].hostname == inc.hostname && vs[i].port == inc.port && vs[i].timestamp
            == inc.timestamp);
        if iv == -1 {
            assert(false);
        }
        if iv != i {
            assert(vs[iv] == view_of_entry(before[iv]));
            assert(same_id(before[iv], entg));
            if iv < i {
                assert(!same_id(before[iv], before[i]));
                assert(before[iv].hostname@ == entg.hostname@ && before[i].hostname@
                    == entg.hostname@);
                assert(false);
            } else {
                assert(!same_id(before[i], before[iv]));
                assert(false);
            }
        }
        lemma_merge_view(before[i], entg, susp, i == self_i, now);
        assert forall|k: int| 0 <= k < views_of_entries(after).len() implies
            #[trigger] views_of_entries(after)[k] == vs.update(
            iv,
            spec_merge_view(vs[iv], inc, susp, iv == self_i, now),
        )[k] by {
            assert(views_of_entries(after)[k] == view_of_entry(after[k]));
            if k == i {
                assert(after[k] == spec_merge(before[i], entg, susp, i == self_i, now));
            } else {
                assert(after[k] == before[k]);
            }
        }
        assert(views_of_entries(after) =~= vs.update(
            iv,
            spec_merge_view(vs[iv], inc, susp, iv == self_i, now),
        ));
    } else {
        if iv != -1 {
            assert(vs[iv] == view_of_entry(before[iv]));
            assert(same_id(before[iv], entg));
            assert(false);
        }
        let pushed = MemberEntry { local_time: now, ..entg };
        assert(after == before.push(pushed));
        assert forall|k: int| 0 <= k < views_of_entries(after).len() implies
            #[trigger] views_of_entries(after)[k] == vs.push(inc)[k] by {
            assert(views_of_entries(after)[k] == view_of_entry(after[k]));
            if k < before.len() {
                assert(after[k] == before[k]);
            } else {
                assert(after[k] == pushed);
                assert(view_of_entry(pushed) == inc);
            }
        }
        assert(views_of_entries(after) =~= vs.push(inc));
    }
}

/// After `upsert`, the folded entry's peer run is in the view, and every
/// run known before is still known: merging keeps an entry's identity,
/// and a new run is appended.
pub proof fn lemma_upsert_keeps_ids(
    before: Seq<MemberEntry>,
    after: Seq<MemberEntry>,
    inc: MemberEntry,
    susp: bool,
    self_i: int,
    now: u64,
)
    requires
        (exists|i: int|
            0 <= i < before.len() && crate::membership::same_id(#[trigger] before[i], inc))
            ==> exists|i: int|
            {
                &&& 0 <= i < before.len()
                &&& crate::membership::same_id(#[trigger] before[i], inc)
                &&& after == before.update(
                    i,
                    crate::membership::spec_merge(before[i], inc, susp, i == self_i, now),
                )
            },
        (forall|i: int|
            0 <= i < before.len() ==> !crate::membership::same_id(#[trigger] before[i], inc))
            ==> after == before.push(MemberEntry { local_time: now, ..inc }),
    ensures
        id_in_view(after, inc.hostname@, inc.port, inc.timestamp),
        forall|j: int|
            0 <= j < before.len() ==> id_in_view(
                after,
                (#[trigger] before[j]).hostname@,
                before[j].port,
                before[j].timestamp,
            ),
{
    if exists|i: int|
        0 <= i < before.len() && crate::membership::same_id(#[trigger] before[i], inc) {
        let i = choose|i: int|
            {
                &&& 0 <= i < before.len()
                &&& crate::membership::same_id(#[trigger] before[i], inc)
                &&& after == before.update(
                    i,
                    crate::membership::spec_merge(before[i], inc, susp, i == self_i, now),
                )
            };
        let merged = crate::membership::spec_merge(before[i], inc, susp, i == self_i, now);
        assert(merged.hostname@ == before[i].hostname@);
        assert(merged.port == before[i].port);
        assert(merged.timestamp == before[i].timestamp);
        assert(after[i] == merged);
        assert forall|j: int| 0 <= j < before.len() implies id_in_view(
            after,
            (#[trigger] before[j]).hostname@,
            before[j].port,
            before[j].timestamp,
        ) by {
            if j == i {
                assert(after[i].hostname@ == before[j].hostname@);
            } else {
                assert(after[j] == before[j]);
            }
        }
        assert(after[i].hostname@ == inc.hostname@ && after[i].port == inc.port
            && after[i].timestamp == inc.timestamp);
    } else {
        assert(after == before.push(MemberEntry { local_time: now, ..inc }));
        assert(after[before.len() as int].hostname@ == inc.hostname@);
        assert forall|j: int| 0 <= j < before.len() implies id_in_view(
            after,
            (#[trigger] before[j]).hostname@,
            before[j].port,
            before[j].timestamp,
        ) by {
            assert(after[j] == before[j]);
        }
    }
}

} // verus!
