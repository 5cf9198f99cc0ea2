//! The jitter buffer: packet records held by sequence number until enough
//! have arrived, then released in ascending order with the gaps between them
//! concealed by repeating the payload in front of each gap.

use std::collections::BTreeMap;
use std::collections::VecDeque;
use crate::ordered::{sorted_keys, strictly_ascending};
use vstd::prelude::*;

verus! {

/// One parsed packet as the jitter buffer holds it.
#[derive(Clone, Debug)]
pub struct PacketRecord {
    pub sequence_number: u32,
    pub frame_size: u32,
    pub payload: Vec<u8>,
}

/// The mathematical contents of a [`PacketRecord`].
pub struct RecordView {
    pub sequence_number: u32,
    pub frame_size: u32,
    pub payload: Seq<u8>,
}

impl View for PacketRecord {
    type V = RecordView;

    open spec fn view(&self) -> RecordView {
        RecordView {
            sequence_number: self.sequence_number,
            frame_size: self.frame_size,
            payload: self.payload@,
        }
    }
}

/// One more than the largest sequence number.
pub open spec fn sequence_space() -> int {
    0x1_0000_0000
}

/// The greatest key of `held` below `s`, if there is one.
pub open spec fn prior_key(held: Map<u32, RecordView>, s: int) -> Option<u32>
    decreases s,
{
    if s <= 0 {
        None
    } else if held.contains_key((s - 1) as u32) {
        Some((s - 1) as u32)
    } else {
        prior_key(held, s - 1)
    }
}

/// The least key of `held` above `s`, if there is one.
pub open spec fn next_key(held: Map<u32, RecordView>, s: int) -> Option<u32>
    decreases sequence_space() - s,
{
    if s + 1 >= sequence_space() {
        None
    } else if held.contains_key((s + 1) as u32) {
        Some((s + 1) as u32)
    } else {
        next_key(held, s + 1)
    }
}

/// Whether the missing sequence number `s` lies in a gap that is concealed:
/// a held record on either side of it, and at most `window` numbers missing
/// between the two.
pub open spec fn gap_concealed(held: Map<u32, RecordView>, window: nat, s: int) -> bool {
    match (prior_key(held, s), next_key(held, s)) {
        (Some(p), Some(n)) => n - p - 1 <= window,
        _ => false,
    }
}

/// Whether a drain of `held` releases a record for sequence number `s`.
pub open spec fn released_at(held: Map<u32, RecordView>, window: nat, s: int) -> bool {
    held.contains_key(s as u32) || gap_concealed(held, window, s)
}

/// The record that stands in for the missing sequence number `s`: the payload
/// of the nearest held record in front of it, under the frame length of the
/// packet that set off the drain.
pub open spec fn concealment_record(
    held: Map<u32, RecordView>,
    frame_size: u32,
    s: int,
) -> RecordView {
    RecordView {
        sequence_number: s as u32,
        frame_size,
        payload: held[prior_key(held, s)->0].payload,
    }
}

/// The record that a drain of `held` releases for sequence number `s`.
pub open spec fn record_at(held: Map<u32, RecordView>, frame_size: u32, s: int) -> RecordView {
    if held.contains_key(s as u32) {
        held[s as u32]
    } else {
        concealment_record(held, frame_size, s)
    }
}

/// The records that a drain of `held` releases for the sequence numbers below
/// `hi`, in ascending order.
pub open spec fn release_below(
    held: Map<u32, RecordView>,
    window: nat,
    frame_size: u32,
    hi: int,
) -> Seq<RecordView>
    decreases hi,
{
    if hi <= 0 {
        Seq::empty()
    } else if released_at(held, window, hi - 1) {
        release_below(held, window, frame_size, hi - 1).push(record_at(held, frame_size, hi - 1))
    } else {
        release_below(held, window, frame_size, hi - 1)
    }
}

/// Everything that a drain of `held` releases, in order.
pub open spec fn drain_output(
    held: Map<u32, RecordView>,
    window: nat,
    frame_size: u32,
) -> Seq<RecordView> {
    release_below(held, window, frame_size, sequence_space())
}

/// Whether every record of `held` sits under its own sequence number.
pub open spec fn keyed_by_sequence(held: Map<u32, RecordView>) -> bool {
    forall|k: u32| held.contains_key(k) ==> (#[trigger] held[k]).sequence_number == k
}

/// Whether the sequence numbers of `records` ascend strictly.
pub open spec fn ascending(records: Seq<RecordView>) -> bool {
    forall|i: int, j: int|
        0 <= i < j < records.len() ==> records[i].sequence_number < records[j].sequence_number
}

/// With no key of `held` in `[lo, s)`, the search for the prior key of `s`
/// goes on from `lo`.
pub proof fn lemma_prior_key_skips(held: Map<u32, RecordView>, lo: int, s: int)
    requires
        0 <= lo <= s <= sequence_space(),
        forall|k: u32| lo <= k < s ==> !held.contains_key(k),
    ensures
        prior_key(held, s) == prior_key(held, lo),
    decreases s - lo,
{
    if lo < s {
        assert(!held.contains_key((s - 1) as u32));
        lemma_prior_key_skips(held, lo, s - 1);
    }
}

/// With no key of `held` in `(s, hi]`, the search for the next key of `s`
/// goes on from `hi`.
pub proof fn lemma_next_key_skips(held: Map<u32, RecordView>, s: int, hi: int)
    requires
        -1 <= s <= hi < sequence_space(),
        forall|k: u32| s < k <= hi ==> !held.contains_key(k),
    ensures
        next_key(held, s) == next_key(held, hi),
    decreases hi - s,
{
    if s < hi {
        assert(!held.contains_key((s + 1) as u32));
        lemma_next_key_skips(held, s + 1, hi);
    }
}

/// A prior key is a key below `s` with no key between it and `s`; without
/// one, no key lies below `s`.
pub proof fn lemma_prior_key_is_nearest(held: Map<u32, RecordView>, s: int)
    requires
        0 <= s <= sequence_space(),
    ensures
        match prior_key(held, s) {
            Some(p) => held.contains_key(p) && p < s && forall|k: u32|
                p < k < s ==> !held.contains_key(k),
            None => forall|k: u32| k < s ==> !held.contains_key(k),
        },
    decreases s,
{
    if s > 0 && !held.contains_key((s - 1) as u32) {
        lemma_prior_key_is_nearest(held, s - 1);
    }
}

/// A next key is a key above `s` with no key between `s` and it; without
/// one, no key lies above `s`.
pub proof fn lemma_next_key_is_nearest(held: Map<u32, RecordView>, s: int)
    requires
        -1 <= s < sequence_space(),
    ensures
        match next_key(held, s) {
            Some(n) => held.contains_key(n) && s < n && forall|k: u32|
                s < k < n ==> !held.contains_key(k),
            None => forall|k: u32| s < k ==> !held.contains_key(k),
        },
    decreases sequence_space() - s,
{
    if s + 1 < sequence_space() && !held.contains_key((s + 1) as u32) {
        lemma_next_key_is_nearest(held, s + 1);
    }
}

/// Where nothing is released for the numbers in `[lo, hi)`, the release up
/// to `hi` is the release up to `lo`.
pub proof fn lemma_release_skips(
    held: Map<u32, RecordView>,
    window: nat,
    frame_size: u32,
    lo: int,
    hi: int,
)
    requires
        0 <= lo <= hi,
        forall|s: int| lo <= s < hi ==> !released_at(held, window, s),
    ensures
        release_below(held, window, frame_size, hi) == release_below(held, window, frame_size, lo),
    decreases hi - lo,
{
    if lo < hi {
        assert(!released_at(held, window, hi - 1));
        lemma_release_skips(held, window, frame_size, lo, hi - 1);
    }
}

/// Every record released for the numbers below `hi` carries a sequence
/// number below `hi`, and the numbers ascend strictly.
pub proof fn lemma_release_ascending(
    held: Map<u32, RecordView>,
    window: nat,
    frame_size: u32,
    hi: int,
)
    requires
        keyed_by_sequence(held),
        hi <= sequence_space(),
    ensures
        ascending(release_below(held, window, frame_size, hi)),
        forall|i: int|
            0 <= i < release_below(held, window, frame_size, hi).len() ==> (
            #[trigger] release_below(held, window, frame_size, hi)[i]).sequence_number < hi,
    decreases hi,
{
    if hi > 0 {
        lemma_release_ascending(held, window, frame_size, hi - 1);
    }
}

/// The release grows at its end only: what is released below `lo` is the
/// start of what is released below any `hi` above it.
pub proof fn lemma_release_extends(
    held: Map<u32, RecordView>,
    window: nat,
    frame_size: u32,
    lo: int,
    hi: int,
)
    requires
        lo <= hi,
    ensures
        release_below(held, window, frame_size, lo).is_prefix_of(
            release_below(held, window, frame_size, hi),
        ),
    decreases hi - lo,
{
    if lo < hi {
        lemma_release_extends(held, window, frame_size, lo, hi - 1);
    }
}

/// Between two held records with no key between them, every number is
/// missing, has the lower record as its prior and the upper as its next, is
/// released exactly when the gap fits the window, and is then released as a
/// copy of the lower record's payload.
pub proof fn lemma_inside_gap(
    held: Map<u32, RecordView>,
    window: nat,
    frame_size: u32,
    p: u32,
    n: u32,
    s: int,
)
    requires
        held.contains_key(p),
        held.contains_key(n),
        p < s < n,
        forall|k: u32| p < k < n ==> !held.contains_key(k),
    ensures
        !held.contains_key(s as u32),
        prior_key(held, s) == Some(p),
        next_key(held, s) == Some(n),
        released_at(held, window, s) == (n - p - 1 <= window),
        record_at(held, frame_size, s) == (RecordView {
            sequence_number: s as u32,
            frame_size,
            payload: held[p].payload,
        }),
{
    lemma_prior_key_skips(held, p + 1, s);
    lemma_next_key_skips(held, s, n - 1);
}

/// No number below the smallest held key is released.
pub proof fn lemma_below_first(held: Map<u32, RecordView>, window: nat, first: int, s: int)
    requires
        0 <= s < first <= sequence_space(),
        forall|k: u32| k < first ==> !held.contains_key(k),
    ensures
        !released_at(held, window, s),
{
    lemma_prior_key_skips(held, 0, s);
}

/// No number above the largest held key is released.
pub proof fn lemma_above_last(held: Map<u32, RecordView>, window: nat, past: int, s: int)
    requires
        0 <= past <= s < sequence_space(),
        forall|k: u32| past <= k ==> !held.contains_key(k),
    ensures
        !released_at(held, window, s),
{
    lemma_next_key_skips(held, s, sequence_space() - 1);
}

/// What a map of records holds, as mathematical records.
pub open spec fn held_view(held: Map<u32, PacketRecord>) -> Map<u32, RecordView> {
    Map::new(|k: u32| held.contains_key(k), |k: u32| held[k]@)
}

/// What a queue of records holds, as mathematical records.
pub open spec fn records_view(records: Seq<PacketRecord>) -> Seq<RecordView> {
    Seq::new(records.len(), |i: int| records[i]@)
}

impl PacketRecord {
    /// A copy of this record.
    pub fn duplicate(&self) -> (copy: PacketRecord)
        ensures
            copy@ == self@,
    {
        PacketRecord {
            sequence_number: self.sequence_number,
            frame_size: self.frame_size,
            payload: self.payload.clone(),
        }
    }
}

/// Appends to `released` what a drain of `pending` releases: the held records
/// in ascending order, and in every gap that fits `window` one copy of the
/// record in front of the gap for each missing number.
fn handle_jitter_buffer(
    pending: &BTreeMap<u32, PacketRecord>,
    window: u32,
    frame_size: u32,
    released: &mut VecDeque<PacketRecord>,
)
    ensures
        records_view(final(released)@) == records_view(old(released)@) + drain_output(
            held_view(pending@),
            window as nat,
            frame_size,
        ),
{
    broadcast use vstd::std_specs::btree::group_btree_axioms;

    let keys = sorted_keys(pending);
    let ghost held = held_view(pending@);
    let ghost before = records_view(released@);
    let ghost mut reached: int = 0;
    let mut i: usize = 0;
    assert(records_view(released@) =~= before + release_below(
        held,
        window as nat,
        frame_size,
        reached,
    ));
    while i < keys.len()
        invariant
            i <= keys@.len(),
            strictly_ascending(keys@),
            forall|k: u32| keys@.contains(k) <==> pending@.contains_key(k),
            held == held_view(pending@),
            reached == (if i == 0 {
                0
            } else {
                keys@[i - 1] + 1
            }),
            records_view(released@) == before + release_below(
                held,
                window as nat,
                frame_size,
                reached,
            ),
        decreases keys@.len() - i,
    {
        let key: u32 = keys[i];
        assert(keys@.contains(key));
        proof {
            assert forall|k: u32| reached <= k < key implies !held.contains_key(k) by {
                if held.contains_key(k) {
                    assert(keys@.contains(k));
                    let j = choose|j: int| 0 <= j < keys@.len() && keys@[j] == k;
                    if j < i {
                        if j < i - 1 {
                            assert(keys@[j] < keys@[i - 1]);
                        }
                    } else if j > i {
                        assert(keys@[i as int] < keys@[j]);
                    }
                }
            }
        }
        if i > 0 {
            let prev: u32 = keys[i - 1];
            assert(keys@.contains(prev));
            let missing: u32 = key - prev - 1;
            if missing >= 1 && missing <= window {
                match pending.get(&prev) {
                    Some(reference) => {
                        let mut s: u32 = prev + 1;
                        while s < key
                            invariant
                                prev < s <= key,
                                held.contains_key(prev),
                                held.contains_key(key),
                                key - prev - 1 <= window,
                                forall|k: u32| prev < k < key ==> !held.contains_key(k),
                                reference@ == held[prev],
                                records_view(released@) == before + release_below(
                                    held,
                                    window as nat,
                                    frame_size,
                                    s as int,
                                ),
                            decreases key - s,
                        {
                            let ghost earlier = released@;
                            released.push_back(
                                PacketRecord {
                                    sequence_number: s,
                                    frame_size,
                                    payload: reference.payload.clone(),
                                },
                            );
                            proof {
                                lemma_inside_gap(
                                    held,
                                    window as nat,
                                    frame_size,
                                    prev,
                                    key,
                                    s as int,
                                );
                                assert(records_view(released@) =~= records_view(earlier).push(
                                    record_at(held, frame_size, s as int),
                                ));
                                assert(records_view(released@) =~= before + release_below(
                                    held,
                                    window as nat,
                                    frame_size,
                                    s + 1,
                                ));
                            }
                            s += 1;
                        }
                    },
                    None => {},
                }
            } else {
                proof {
                    assert forall|s: int| reached <= s < key implies !released_at(
                        held,
                        window as nat,
                        s,
                    ) by {
                        lemma_inside_gap(held, window as nat, frame_size, prev, key, s);
                    }
                    lemma_release_skips(held, window as nat, frame_size, reached, key as int);
                }
            }
        } else {
            proof {
                assert forall|s: int| 0 <= s < key implies !released_at(held, window as nat, s) by {
                    lemma_below_first(held, window as nat, key as int, s);
                }
                lemma_release_skips(held, window as nat, frame_size, 0, key as int);
            }
        }
        assert(records_view(released@) == before + release_below(
            held,
            window as nat,
            frame_size,
            key as int,
        ));
        match pending.get(&key) {
            Some(record) => {
                let ghost earlier = released@;
                released.push_back(record.duplicate());
                proof {
                    assert(records_view(released@) =~= records_view(earlier).push(held[key]));
                    assert(records_view(released@) =~= before + release_below(
                        held,
                        window as nat,
                        frame_size,
                        key + 1,
                    ));
                }
            },
            None => {},
        }
        proof {
            reached = key + 1;
        }
        i += 1;
    }
    proof {
        assert forall|k: u32| reached <= k implies !held.contains_key(k) by {
            if held.contains_key(k) {
                assert(keys@.contains(k));
                let j = choose|j: int| 0 <= j < keys@.len() && keys@[j] == k;
                if j < keys@.len() - 1 {
                    assert(keys@[j] < keys@[keys@.len() - 1]);
                }
            }
        }
        if reached < sequence_space() {
            assert forall|s: int| reached <= s < sequence_space() implies !released_at(
                held,
                window as nat,
                s,
            ) by {
                lemma_above_last(held, window as nat, reached, s);
            }
            lemma_release_skips(held, window as nat, frame_size, reached, sequence_space());
        }
    }
}

/// Records that must be held before a drain when nothing else is asked for.
pub const DEFAULT_RELEASE_THRESHOLD: usize = 5;

/// The longest gap that is concealed when nothing else is asked for: every gap.
pub const DEFAULT_CONCEALMENT_WINDOW: u32 = 0xFFFF_FFFF;

/// Packet records waiting for their turn, and those already released to the
/// decoder but not yet fetched.
pub struct JitterBuffer {
    pending: BTreeMap<u32, PacketRecord>,
    released: VecDeque<PacketRecord>,
    release_threshold: usize,
    concealment_window: u32,
    high_water: Option<u32>,
}

/// The mathematical state of a [`JitterBuffer`].
pub struct JitterView {
    /// The records held back, by sequence number.
    pub pending: Map<u32, RecordView>,
    /// The records released and not yet fetched, oldest first.
    pub released: Seq<RecordView>,
    /// How many records must be held before a drain.
    pub release_threshold: nat,
    /// The longest gap that a drain conceals.
    pub concealment_window: nat,
    /// The highest sequence number released so far.
    pub high_water: Option<u32>,
}

/// The state of a buffer that has seen no packet.
pub open spec fn fresh(release_threshold: nat, concealment_window: nat) -> JitterView {
    JitterView {
        pending: Map::empty(),
        released: Seq::empty(),
        release_threshold,
        concealment_window,
        high_water: None,
    }
}

/// The invariant of the buffer: the held records are finitely many, fewer
/// than the release threshold, keyed by their own sequence numbers and all
/// above the high-water mark; the released ones ascend and end at that mark.
pub open spec fn well_formed(v: JitterView) -> bool {
    &&& v.pending.dom().finite()
    &&& keyed_by_sequence(v.pending)
    &&& v.pending.len() == 0 || v.pending.len() < v.release_threshold
    &&& ascending(v.released)
    &&& forall|k: u32| v.pending.contains_key(k) && v.high_water is Some ==> k > v.high_water->0
    &&& v.released.len() > 0 ==> v.high_water == Some(v.released.last().sequence_number)
}

/// Whether a packet with this sequence number comes too late: a drain has
/// already released that number or a higher one.
pub open spec fn is_late(v: JitterView, sequence_number: u32) -> bool {
    v.high_water is Some && sequence_number <= v.high_water->0
}

/// The state after a packet arrives.  A late packet is discarded.  Any other
/// is stored under its sequence number, in place of a record already there;
/// if the buffer then holds as many records as the release threshold, all of
/// them are drained to the released queue and the buffer is left empty.
pub open spec fn after_add(v: JitterView, r: RecordView) -> JitterView {
    if is_late(v, r.sequence_number) {
        v
    } else {
        let stored = v.pending.insert(r.sequence_number, r);
        if stored.len() >= v.release_threshold {
            let out = drain_output(stored, v.concealment_window, r.frame_size);
            JitterView {
                pending: Map::empty(),
                released: v.released + out,
                high_water: Some(out.last().sequence_number),
                ..v
            }
        } else {
            JitterView { pending: stored, ..v }
        }
    }
}

/// The state after the oldest released record, if any, was fetched.
pub open spec fn after_fetch(v: JitterView) -> JitterView {
    if v.released.len() > 0 {
        JitterView { released: v.released.drop_first(), ..v }
    } else {
        v
    }
}

/// Each held record is released by a drain, as it is held.
pub proof fn lemma_drain_keeps_held(
    held: Map<u32, RecordView>,
    window: nat,
    frame_size: u32,
    k: u32,
)
    requires
        held.contains_key(k),
    ensures
        release_below(held, window, frame_size, k as int).len() < drain_output(
            held,
            window,
            frame_size,
        ).len(),
        drain_output(held, window, frame_size)[release_below(
            held,
            window,
            frame_size,
            k as int,
        ).len() as int] == held[k],
{
    lemma_release_extends(held, window, frame_size, k + 1, sequence_space());
    let upto = release_below(held, window, frame_size, k + 1);
    let all = drain_output(held, window, frame_size);
    let at = release_below(held, window, frame_size, k as int).len() as int;
    assert(upto[at] == held[k]);
    assert(all.subrange(0, upto.len() as int)[at] == all[at]);
}

/// Every record that a drain releases stands for a sequence number at which
/// the drain releases, and is the record owed for that number.
pub proof fn lemma_release_members(
    held: Map<u32, RecordView>,
    window: nat,
    frame_size: u32,
    hi: int,
    i: int,
)
    requires
        keyed_by_sequence(held),
        hi <= sequence_space(),
        0 <= i < release_below(held, window, frame_size, hi).len(),
    ensures
        ({
            let r = release_below(held, window, frame_size, hi)[i];
            &&& 0 <= r.sequence_number < hi
            &&& released_at(held, window, r.sequence_number as int)
            &&& r == record_at(held, frame_size, r.sequence_number as int)
        }),
    decreases hi,
{
    if hi > 0 {
        let below = release_below(held, window, frame_size, hi - 1);
        if i < below.len() {
            lemma_release_members(held, window, frame_size, hi - 1, i);
        }
    }
}

/// A drain releases nothing below the smallest held key nor above the largest.
pub proof fn lemma_release_within_held(
    held: Map<u32, RecordView>,
    window: nat,
    frame_size: u32,
    i: int,
)
    requires
        keyed_by_sequence(held),
        0 <= i < drain_output(held, window, frame_size).len(),
    ensures
        exists|lo: u32, hi: u32|
            held.contains_key(lo) && held.contains_key(hi) && lo <= (#[trigger] drain_output(
                held,
                window,
                frame_size,
            )[i]).sequence_number <= hi,
{
    lemma_release_members(held, window, frame_size, sequence_space(), i);
    let s = drain_output(held, window, frame_size)[i].sequence_number;
    if held.contains_key(s) {
        assert(held.contains_key(s) && held.contains_key(s) && s <= s <= s);
    } else {
        lemma_prior_key_is_nearest(held, s as int);
        lemma_next_key_is_nearest(held, s as int);
        let p = prior_key(held, s as int)->0;
        let n = next_key(held, s as int)->0;
        assert(held.contains_key(p) && held.contains_key(n) && p <= s <= n);
    }
}

/// The arrival of a packet keeps the invariant.
pub proof fn lemma_add_keeps_well_formed(v: JitterView, r: RecordView)
    requires
        well_formed(v),
    ensures
        well_formed(after_add(v, r)),
{
    if !is_late(v, r.sequence_number) {
        let stored = v.pending.insert(r.sequence_number, r);
        assert(keyed_by_sequence(stored));
        if stored.len() >= v.release_threshold {
            let out = drain_output(stored, v.concealment_window, r.frame_size);
            let after = after_add(v, r);
            lemma_release_ascending(stored, v.concealment_window, r.frame_size, sequence_space());
            lemma_drain_keeps_held(stored, v.concealment_window, r.frame_size, r.sequence_number);
            assert forall|i: int| 0 <= i < out.len() && v.high_water is Some implies (
            #[trigger] out[i]).sequence_number > v.high_water->0 by {
                lemma_release_within_held(stored, v.concealment_window, r.frame_size, i);
            }
            assert forall|i: int, j: int|
                0 <= i < j < after.released.len() implies after.released[i].sequence_number
                < after.released[j].sequence_number by {
                if i < v.released.len() && j >= v.released.len() {
                    assert(v.released[i].sequence_number <= v.released.last().sequence_number);
                    assert(out[j - v.released.len()].sequence_number > v.high_water->0);
                } else if i >= v.released.len() {
                    assert(out[i - v.released.len()].sequence_number < out[j
                        - v.released.len()].sequence_number);
                }
            }
            assert(after.pending.len() == 0);
        } else {
            assert(stored.dom().finite());
        }
    }
}

/// Fetching a released record keeps the invariant.
pub proof fn lemma_fetch_keeps_well_formed(v: JitterView)
    requires
        well_formed(v),
    ensures
        well_formed(after_fetch(v)),
{
    if v.released.len() > 0 {
        let rest = v.released.drop_first();
        assert forall|i: int, j: int| 0 <= i < j < rest.len() implies rest[i].sequence_number
            < rest[j].sequence_number by {
            assert(rest[i] == v.released[i + 1]);
            assert(rest[j] == v.released[j + 1]);
        }
        if rest.len() > 0 {
            assert(rest.last() == v.released.last());
        }
    }
}

impl View for JitterBuffer {
    type V = JitterView;

    closed spec fn view(&self) -> JitterView {
        JitterView {
            pending: held_view(self.pending@),
            released: records_view(self.released@),
            release_threshold: self.release_threshold as nat,
            concealment_window: self.concealment_window as nat,
            high_water: self.high_water,
        }
    }
}

impl JitterBuffer {
    /// Whether the buffer's invariant holds.
    pub open spec fn wf(&self) -> bool {
        well_formed(self@)
    }

    /// An empty buffer with the default release threshold that conceals every gap.
    pub fn new() -> (buffer: JitterBuffer)
        ensures
            buffer.wf(),
            buffer@ == fresh(
                DEFAULT_RELEASE_THRESHOLD as nat,
                DEFAULT_CONCEALMENT_WINDOW as nat,
            ),
    {
        JitterBuffer::with_parameters(DEFAULT_RELEASE_THRESHOLD, DEFAULT_CONCEALMENT_WINDOW)
    }

    /// An empty buffer that drains once it holds `release_threshold` records
    /// and conceals gaps of up to `concealment_window` missing packets.
    pub fn with_parameters(release_threshold: usize, concealment_window: u32) -> (buffer:
        JitterBuffer)
        ensures
            buffer.wf(),
            buffer@ == fresh(release_threshold as nat, concealment_window as nat),
    {
        let buffer = JitterBuffer {
            pending: BTreeMap::new(),
            released: VecDeque::new(),
            release_threshold,
            concealment_window,
            high_water: None,
        };
        proof {
            assert(buffer@.pending =~= Map::<u32, RecordView>::empty());
            assert(buffer@.released =~= Seq::<RecordView>::empty());
        }
        buffer
    }

    /// Takes in one packet: discards it if it is late, else stores it and
    /// drains the buffer once the release threshold is reached.
    pub fn add_packet(&mut self, packet: PacketRecord)
        requires
            old(self).wf(),
        ensures
            final(self).wf(),
            final(self)@ == after_add(old(self)@, packet@),
    {
        broadcast use vstd::std_specs::btree::group_btree_axioms;

        proof {
            lemma_add_keeps_well_formed(self@, packet@);
        }
        let late = match self.high_water {
            Some(mark) => packet.sequence_number <= mark,
            None => false,
        };
        if late {
            return ;
        }
        let ghost before = self@;
        let ghost record = packet@;
        let sequence_number: u32 = packet.sequence_number;
        let frame_size: u32 = packet.frame_size;
        self.pending.insert(sequence_number, packet);
        let ghost stored = before.pending.insert(sequence_number, record);
        assert(held_view(self.pending@) =~= stored);
        assert(self.pending@.dom() =~= stored.dom());
        if self.pending.len() >= self.release_threshold {
            handle_jitter_buffer(
                &self.pending,
                self.concealment_window,
                frame_size,
                &mut self.released,
            );
            let ghost out = drain_output(stored, before.concealment_window, frame_size);
            proof {
                lemma_drain_keeps_held(
                    stored,
                    before.concealment_window,
                    frame_size,
                    sequence_number,
                );
                lemma_release_members(
                    stored,
                    before.concealment_window,
                    frame_size,
                    sequence_space(),
                    out.len() - 1,
                );
            }
            let waiting: usize = self.released.len();
            if waiting > 0 {
                self.high_water = Some(self.released[waiting - 1].sequence_number);
            }
            self.pending.clear();
            assert(held_view(self.pending@) =~= Map::<u32, RecordView>::empty());
        }
    }

    /// Hands over the oldest released record, if there is one.
    pub fn get_next_packet(&mut self) -> (next: Option<PacketRecord>)
        requires
            old(self).wf(),
        ensures
            final(self).wf(),
            final(self)@ == after_fetch(old(self)@),
            match next {
                Some(record) => old(self)@.released.len() > 0 && record@ == old(
                    self,
                )@.released.first(),
                None => old(self)@.released.len() == 0,
            },
    {
        proof {
            lemma_fetch_keeps_well_formed(self@);
        }
        let ghost before = self.released@;
        let next = self.released.pop_front();
        proof {
            if before.len() > 0 {
                assert(records_view(self.released@) =~= records_view(before).drop_first());
            }
        }
        next
    }

    /// How many records are held back.
    pub fn len(&self) -> (held: usize)
        requires
            self.wf(),
        ensures
            held == self@.pending.len(),
    {
        broadcast use vstd::std_specs::btree::group_btree_axioms;

        assert(self.pending@.dom() =~= held_view(self.pending@).dom());
        self.pending.len()
    }

    /// How many released records wait to be fetched.
    pub fn released_len(&self) -> (waiting: usize)
        ensures
            waiting == self@.released.len(),
    {
        self.released.len()
    }

    /// How many records must be held before a drain.
    pub fn release_threshold(&self) -> (threshold: usize)
        ensures
            threshold == self@.release_threshold,
    {
        self.release_threshold
    }

    /// The longest gap that a drain conceals.
    pub fn concealment_window(&self) -> (window: u32)
        ensures
            window == self@.concealment_window,
    {
        self.concealment_window
    }

    /// The highest sequence number released so far.
    pub fn high_water(&self) -> (mark: Option<u32>)
        ensures
            mark == self@.high_water,
    {
        self.high_water
    }
}

/// The record owed for a number at which a drain releases stands in the
/// output right after the records for all lower numbers.
pub proof fn lemma_release_position(
    held: Map<u32, RecordView>,
    window: nat,
    frame_size: u32,
    s: int,
)
    requires
        0 <= s < sequence_space(),
        released_at(held, window, s),
    ensures
        release_below(held, window, frame_size, s).len() < drain_output(
            held,
            window,
            frame_size,
        ).len(),
        drain_output(held, window, frame_size)[release_below(
            held,
            window,
            frame_size,
            s,
        ).len() as int] == record_at(held, frame_size, s),
{
    lemma_release_extends(held, window, frame_size, s + 1, sequence_space());
    let upto = release_below(held, window, frame_size, s + 1);
    let all = drain_output(held, window, frame_size);
    let at = release_below(held, window, frame_size, s).len() as int;
    assert(upto[at] == record_at(held, frame_size, s));
    assert(all.subrange(0, upto.len() as int)[at] == all[at]);
}

/// Inside a gap that is concealed the output grows by one record per number.
proof fn lemma_release_len_in_gap(
    held: Map<u32, RecordView>,
    window: nat,
    frame_size: u32,
    p: u32,
    n: u32,
    s: int,
)
    requires
        held.contains_key(p),
        held.contains_key(n),
        p < s <= n,
        forall|k: u32| p < k < n ==> !held.contains_key(k),
        n - p - 1 <= window,
    ensures
        release_below(held, window, frame_size, s).len() == release_below(
            held,
            window,
            frame_size,
            p as int,
        ).len() + (s - p),
    decreases s - p,
{
    if s > p + 1 {
        lemma_release_len_in_gap(held, window, frame_size, p, n, s - 1);
        lemma_inside_gap(held, window, frame_size, p, n, s - 1);
    }
}

/// Concealment.  Take two held records with nothing held between them and
/// `n - p - 1` numbers missing, at most `window`.  Then the drain releases,
/// between the two records, exactly one record for each missing number, in
/// order, each with the payload of the record in front of the gap and the
/// frame length of the drain.
pub proof fn lemma_gap_is_concealed(
    held: Map<u32, RecordView>,
    window: nat,
    frame_size: u32,
    p: u32,
    n: u32,
)
    requires
        held.contains_key(p),
        held.contains_key(n),
        p < n,
        forall|k: u32| p < k < n ==> !held.contains_key(k),
        n - p - 1 <= window,
    ensures
        ({
            let out = drain_output(held, window, frame_size);
            let at = release_below(held, window, frame_size, p as int).len() as int;
            &&& at + (n - p) < out.len()
            &&& out[at] == held[p]
            &&& out[at + (n - p)] == held[n]
            &&& forall|j: int|
                1 <= j < n - p ==> #[trigger] out[at + j] == (RecordView {
                    sequence_number: (p + j) as u32,
                    frame_size,
                    payload: held[p].payload,
                })
        }),
{
    let out = drain_output(held, window, frame_size);
    let at = release_below(held, window, frame_size, p as int).len() as int;
    lemma_release_position(held, window, frame_size, p as int);
    lemma_release_position(held, window, frame_size, n as int);
    lemma_release_len_in_gap(held, window, frame_size, p, n, n as int);
    assert forall|j: int| 1 <= j < n - p implies #[trigger] out[at + j] == (RecordView {
        sequence_number: (p + j) as u32,
        frame_size,
        payload: held[p].payload,
    }) by {
        lemma_inside_gap(held, window, frame_size, p, n, p + j);
        lemma_release_len_in_gap(held, window, frame_size, p, n, p + j);
        lemma_release_position(held, window, frame_size, p + j);
    }
}

/// A gap longer than the window is passed on as a gap: the record behind it
/// follows the record in front of it at once.
pub proof fn lemma_long_gap_is_passed_on(
    held: Map<u32, RecordView>,
    window: nat,
    frame_size: u32,
    p: u32,
    n: u32,
)
    requires
        held.contains_key(p),
        held.contains_key(n),
        p < n,
        forall|k: u32| p < k < n ==> !held.contains_key(k),
        n - p - 1 > window,
    ensures
        ({
            let out = drain_output(held, window, frame_size);
            let at = release_below(held, window, frame_size, p as int).len() as int;
            &&& at + 1 < out.len()
            &&& out[at] == held[p]
            &&& out[at + 1] == held[n]
        }),
{
    lemma_release_position(held, window, frame_size, p as int);
    lemma_release_position(held, window, frame_size, n as int);
    assert forall|s: int| p + 1 <= s < n implies !released_at(held, window, s) by {
        lemma_inside_gap(held, window, frame_size, p, n, s);
    }
    lemma_release_skips(held, window, frame_size, p + 1, n as int);
}

/// The state after the packets of `arrivals` came in, in that order.
pub open spec fn after_arrivals(v: JitterView, arrivals: Seq<RecordView>) -> JitterView
    decreases arrivals.len(),
{
    if arrivals.len() == 0 {
        v
    } else {
        after_add(after_arrivals(v, arrivals.drop_last()), arrivals.last())
    }
}

/// The records of `arrivals` by sequence number, a later one in place of an
/// earlier one with the same number.
pub open spec fn by_sequence(arrivals: Seq<RecordView>) -> Map<u32, RecordView>
    decreases arrivals.len(),
{
    if arrivals.len() == 0 {
        Map::empty()
    } else {
        by_sequence(arrivals.drop_last()).insert(arrivals.last().sequence_number, arrivals.last())
    }
}

/// Whatever arrives keeps the invariant.
pub proof fn lemma_arrivals_keep_well_formed(v: JitterView, arrivals: Seq<RecordView>)
    requires
        well_formed(v),
    ensures
        well_formed(after_arrivals(v, arrivals)),
    decreases arrivals.len(),
{
    if arrivals.len() > 0 {
        lemma_arrivals_keep_well_formed(v, arrivals.drop_last());
        lemma_add_keeps_well_formed(after_arrivals(v, arrivals.drop_last()), arrivals.last());
    }
}

/// Order preservation.  Whatever packets arrive, and in whatever order, the
/// records that the buffer releases carry strictly ascending sequence
/// numbers, across drains too.
pub proof fn lemma_released_in_order(
    release_threshold: nat,
    concealment_window: nat,
    arrivals: Seq<RecordView>,
)
    ensures
        ascending(
            after_arrivals(fresh(release_threshold, concealment_window), arrivals).released,
        ),
{
    lemma_arrivals_keep_well_formed(fresh(release_threshold, concealment_window), arrivals);
}

/// The map of `arrivals` holds exactly their sequence numbers, each record
/// under its own, and has one entry per arrival when no number comes twice.
proof fn lemma_by_sequence(arrivals: Seq<RecordView>)
    ensures
        by_sequence(arrivals).dom().finite(),
        keyed_by_sequence(by_sequence(arrivals)),
        forall|k: u32|
            by_sequence(arrivals).contains_key(k) <==> exists|i: int|
                0 <= i < arrivals.len() && (#[trigger] arrivals[i]).sequence_number == k,
        (forall|i: int, j: int|
            0 <= i < j < arrivals.len() ==> arrivals[i].sequence_number
                != arrivals[j].sequence_number) ==> by_sequence(arrivals).len() == arrivals.len(),
    decreases arrivals.len(),
{
    if arrivals.len() > 0 {
        let front = arrivals.drop_last();
        let last = arrivals.last();
        lemma_by_sequence(front);
        assert forall|k: u32| by_sequence(arrivals).contains_key(k) implies exists|i: int|
            0 <= i < arrivals.len() && (#[trigger] arrivals[i]).sequence_number == k by {
            if k == last.sequence_number {
                assert(arrivals[arrivals.len() - 1].sequence_number == k);
            } else {
                let i = choose|i: int|
                    0 <= i < front.len() && (#[trigger] front[i]).sequence_number == k;
                assert(arrivals[i].sequence_number == k);
            }
        }
        assert forall|k: u32|
            (exists|i: int|
                0 <= i < arrivals.len() && (#[trigger] arrivals[i]).sequence_number
                    == k) implies by_sequence(arrivals).contains_key(k) by {
            let i = choose|i: int|
                0 <= i < arrivals.len() && (#[trigger] arrivals[i]).sequence_number == k;
            if i < front.len() {
                assert(front[i].sequence_number == k);
            }
        }
        if forall|i: int, j: int|
            0 <= i < j < arrivals.len() ==> arrivals[i].sequence_number
                != arrivals[j].sequence_number {
            assert forall|i: int, j: int| 0 <= i < j < front.len() implies front[i].sequence_number
                != front[j].sequence_number by {
                assert(front[i] == arrivals[i]);
                assert(front[j] == arrivals[j]);
            }
            if by_sequence(front).contains_key(last.sequence_number) {
                let i = choose|i: int|
                    0 <= i < front.len() && (#[trigger] front[i]).sequence_number
                        == last.sequence_number;
                assert(arrivals[i].sequence_number == arrivals[arrivals.len()
                    - 1].sequence_number);
            }
        }
    }
}

/// While fewer packets than the release threshold have arrived at a fresh
/// buffer, each with a number of its own, all of them are held and nothing
/// is released.
proof fn lemma_held_before_threshold(
    release_threshold: nat,
    concealment_window: nat,
    arrivals: Seq<RecordView>,
)
    requires
        arrivals.len() < release_threshold,
        forall|i: int, j: int|
            0 <= i < j < arrivals.len() ==> arrivals[i].sequence_number
                != arrivals[j].sequence_number,
    ensures
        after_arrivals(fresh(release_threshold, concealment_window), arrivals) == (JitterView {
            pending: by_sequence(arrivals),
            ..fresh(release_threshold, concealment_window)
        }),
    decreases arrivals.len(),
{
    if arrivals.len() > 0 {
        let front = arrivals.drop_last();
        assert forall|i: int, j: int| 0 <= i < j < front.len() implies front[i].sequence_number
            != front[j].sequence_number by {
            assert(front[i] == arrivals[i]);
            assert(front[j] == arrivals[j]);
        }
        lemma_held_before_threshold(release_threshold, concealment_window, front);
        lemma_by_sequence(arrivals);
    }
}

/// One full window.  When as many packets as the release threshold arrive at
/// a fresh buffer, each with a number of its own, then in whatever order
/// they came the buffer releases, on the last arrival, the drain of all of
/// them: every one of them in ascending order with the gaps concealed.
pub proof fn lemma_window_is_released_whole(
    release_threshold: nat,
    concealment_window: nat,
    arrivals: Seq<RecordView>,
)
    requires
        release_threshold >= 1,
        arrivals.len() == release_threshold,
        forall|i: int, j: int|
            0 <= i < j < arrivals.len() ==> arrivals[i].sequence_number
                != arrivals[j].sequence_number,
    ensures
        ({
            let after = after_arrivals(fresh(release_threshold, concealment_window), arrivals);
            &&& after.pending == Map::<u32, RecordView>::empty()
            &&& after.released == drain_output(
                by_sequence(arrivals),
                concealment_window,
                arrivals.last().frame_size,
            )
            &&& ascending(after.released)
            &&& forall|i: int|
                0 <= i < arrivals.len() ==> after.released.contains(#[trigger] arrivals[i])
        }),
{
    let front = arrivals.drop_last();
    let start = fresh(release_threshold, concealment_window);
    assert forall|i: int, j: int| 0 <= i < j < front.len() implies front[i].sequence_number
        != front[j].sequence_number by {
        assert(front[i] == arrivals[i]);
        assert(front[j] == arrivals[j]);
    }
    lemma_held_before_threshold(release_threshold, concealment_window, front);
    lemma_by_sequence(arrivals);
    lemma_released_in_order(release_threshold, concealment_window, arrivals);
    let after = after_arrivals(start, arrivals);
    let out = drain_output(by_sequence(arrivals), concealment_window, arrivals.last().frame_size);
    assert(after.released =~= out);
    assert forall|i: int| 0 <= i < arrivals.len() implies after.released.contains(
        #[trigger] arrivals[i],
    ) by {
        let k = arrivals[i].sequence_number;
        lemma_by_sequence_holds(arrivals, i);
        lemma_drain_keeps_held(
            by_sequence(arrivals),
            concealment_window,
            arrivals.last().frame_size,
            k,
        );
    }
}

/// With no number coming twice, each arrival is the record held under its number.
proof fn lemma_by_sequence_holds(arrivals: Seq<RecordView>, i: int)
    requires
        0 <= i < arrivals.len(),
        forall|a: int, b: int|
            0 <= a < b < arrivals.len() ==> arrivals[a].sequence_number
                != arrivals[b].sequence_number,
    ensures
        by_sequence(arrivals).contains_key(arrivals[i].sequence_number),
        by_sequence(arrivals)[arrivals[i].sequence_number] == arrivals[i],
    decreases arrivals.len(),
{
    if i < arrivals.len() - 1 {
        let front = arrivals.drop_last();
        assert forall|a: int, b: int| 0 <= a < b < front.len() implies front[a].sequence_number
            != front[b].sequence_number by {
            assert(front[a] == arrivals[a]);
            assert(front[b] == arrivals[b]);
        }
        lemma_by_sequence_holds(front, i);
        assert(front[i] == arrivals[i]);
        assert(arrivals[i].sequence_number != arrivals[arrivals.len() - 1].sequence_number);
    }
}

} // verus!
