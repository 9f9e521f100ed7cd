//! Reassembly of fragmented messages.
//!
//! A message that is too large for one packet travels as `N` fragments that
//! share its message id and carry the indices `0..N`. The reassembler keeps one
//! slot per message id, fills it as fragments arrive in any order, and hands
//! out the whole message once, when the last missing fragment arrives.

use vstd::prelude::*;
use crate::error::ChannelError;
use crate::message::{FragmentData, FragmentView, SingleData, SingleView};
use crate::wrapping_id::MessageId;

verus! {

/// Mathematical value of one reassembly slot.
pub struct SlotView {
    /// One entry per fragment index: the payload of that fragment once it has arrived.
    pub parts: Seq<Option<Seq<u8>>>,
    /// Reading of the reassembler's clock when the slot last took a fragment.
    pub last_received: u64,
}

/// Mathematical value of a reassembler.
pub struct FragmentsView {
    /// The open slots, by message id.
    pub slots: Map<u16, SlotView>,
    /// The largest number of slots that may be open at once.
    pub capacity: nat,
    /// The reassembler's clock, in microseconds.
    pub now: u64,
}

/// A reassembler after one fragment, and what it handed out.
pub struct FragmentStep {
    pub state: FragmentsView,
    pub result: Result<Option<SingleView>, ChannelError>,
}

/// The parts of a message of `n` fragments none of which has arrived.
pub open spec fn no_parts(n: nat) -> Seq<Option<Seq<u8>>> {
    Seq::new(n, |i: int| None)
}

/// Whether every fragment has arrived.
pub open spec fn all_present(parts: Seq<Option<Seq<u8>>>) -> bool {
    forall|i: int| 0 <= i < parts.len() ==> (#[trigger] parts[i]) is Some
}

/// The payloads of the fragments that have arrived, joined in index order.
pub open spec fn concat_parts(parts: Seq<Option<Seq<u8>>>) -> Seq<u8>
    decreases parts.len(),
{
    if parts.len() == 0 {
        Seq::empty()
    } else {
        concat_parts(parts.drop_last()) + match parts.last() {
            Some(bytes) => bytes,
            None => Seq::empty(),
        }
    }
}

/// Whether a slot has waited for `timeout` microseconds or more at time `now`.
pub open spec fn slot_expired(slot: SlotView, now: u64, timeout: u64) -> bool {
    now >= slot.last_received && now - slot.last_received >= timeout
}

impl FragmentsView {
    /// A reassembler with no open slot, room for `capacity` messages, and
    /// its clock at zero.
    pub open spec fn fresh(capacity: nat) -> FragmentsView {
        FragmentsView { slots: Map::empty(), capacity, now: 0 }
    }

    /// What a reassembler holds at any time: at most `capacity` slots, each for
    /// a message of two fragments or more of which at least one is missing.
    pub open spec fn wf(self) -> bool {
        &&& self.slots.dom().finite()
        &&& self.slots.dom().len() <= self.capacity
        &&& forall|id: u16| #[trigger]
            self.slots.contains_key(id) ==> 2 <= self.slots[id].parts.len() <= 255 && !all_present(
                self.slots[id].parts,
            )
    }

    /// The parts that have arrived of message `id` when a fragment announces
    /// `n` fragments for it.
    pub open spec fn parts_of(self, id: u16, n: nat) -> Seq<Option<Seq<u8>>> {
        if self.slots.contains_key(id) {
            self.slots[id].parts
        } else {
            no_parts(n)
        }
    }

    /// Whether the reassembler has no use for the fragment: its index lies
    /// outside the message, it disagrees with the slot on the number of
    /// fragments, or a fragment of that index has arrived before.
    pub open spec fn ignores(self, f: FragmentView) -> bool {
        let parts = self.parts_of(f.message_id, f.num_fragments as nat);
        ||| f.fragment_id >= f.num_fragments
        ||| parts.len() != f.num_fragments
        ||| parts[f.fragment_id as int] is Some
    }

    /// The reassembler after the fragment `f`, and what it hands out.
    ///
    /// A fragment it has no use for changes nothing. The fragment that
    /// completes its message closes the slot and yields the whole message,
    /// with the tick of that fragment. Any other fragment is stored, in a new
    /// slot if it is the first of its message; if no slot is free for it, the
    /// reassembler refuses it and changes nothing.
    pub open spec fn receive(self, f: FragmentView) -> FragmentStep {
        let id = f.message_id;
        let parts = self.parts_of(id, f.num_fragments as nat).update(
            f.fragment_id as int,
            Some(f.bytes),
        );
        if self.ignores(f) {
            FragmentStep { state: self, result: Ok(None) }
        } else if all_present(parts) {
            FragmentStep {
                state: FragmentsView { slots: self.slots.remove(id), ..self },
                result: Ok(
                    Some(SingleView { id: Some(id), tick: f.tick, bytes: concat_parts(parts) }),
                ),
            }
        } else if !self.slots.contains_key(id) && self.slots.dom().len() >= self.capacity {
            FragmentStep { state: self, result: Err(ChannelError::FragmentSlotOverflow) }
        } else {
            FragmentStep {
                state: FragmentsView {
                    slots: self.slots.insert(id, SlotView { parts, last_received: self.now }),
                    ..self
                },
                result: Ok(None),
            }
        }
    }

    /// The reassembler after its clock is set to `now` and every slot that has
    /// waited for `timeout` microseconds or more is closed.
    pub open spec fn collect(self, now: u64, timeout: u64) -> FragmentsView {
        FragmentsView {
            slots: Map::new(
                |id: u16| self.slots.contains_key(id) && !slot_expired(self.slots[id], now, timeout),
                |id: u16| self.slots[id],
            ),
            capacity: self.capacity,
            now,
        }
    }
}

/// A well-formed reassembler stays well formed whatever fragment arrives, and
/// whenever it closes; and the message that a fragment completes carries the
/// fragment's message id.
pub proof fn lemma_receive_keeps_wf(s: FragmentsView, f: FragmentView)
    requires
        s.wf(),
    ensures
        s.receive(f).state.wf(),
        s.receive(f).state.capacity == s.capacity,
        s.receive(f).state.now == s.now,
        s.receive(f).result is Err ==> s.receive(f).state == s,
        match s.receive(f).result {
            Ok(Some(whole)) => whole.id == Some(f.message_id) && whole.tick == f.tick,
            _ => true,
        },
{
    let id = f.message_id;
    let parts = s.parts_of(id, f.num_fragments as nat).update(f.fragment_id as int, Some(f.bytes));
    let after = s.receive(f).state;
    if s.ignores(f) {
    } else if all_present(parts) {
        assert(after.slots.dom() =~= s.slots.dom().remove(id));
    } else if !s.slots.contains_key(id) && s.slots.dom().len() >= s.capacity {
    } else {
        assert(after.slots.dom() =~= s.slots.dom().insert(id));
        if !s.slots.contains_key(id) {
            if f.num_fragments == 1 {
                assert(all_present(parts));
            }
        }
    }
}

/// Closing the slots that have waited too long keeps a reassembler well formed.
pub proof fn lemma_collect_keeps_wf(s: FragmentsView, now: u64, timeout: u64)
    requires
        s.wf(),
    ensures
        s.collect(now, timeout).wf(),
{
    let after = s.collect(now, timeout);
    assert(after.slots.dom().subset_of(s.slots.dom()));
    vstd::set_lib::lemma_len_subset(after.slots.dom(), s.slots.dom());
}

/// The payload of a message cut into `chunks`, one chunk per fragment.
pub open spec fn joined(chunks: Seq<Seq<u8>>) -> Seq<u8>
    decreases chunks.len(),
{
    if chunks.len() == 0 {
        Seq::empty()
    } else {
        joined(chunks.drop_last()) + chunks.last()
    }
}

/// Whether `order` lists each fragment index below `n` once, `position`
/// telling for each index its place in `order`.
pub open spec fn is_arrival_order(order: Seq<int>, position: Seq<int>, n: int) -> bool {
    &&& order.len() == n
    &&& position.len() == n
    &&& forall|k: int|
        0 <= k < n ==> 0 <= #[trigger] order[k] < n && position[order[k]] == k
    &&& forall|i: int|
        0 <= i < n ==> 0 <= #[trigger] position[i] < n && order[position[i]] == i
}

/// The fragments of the message `id` with the payload `chunks`, in the order
/// `order` of their indices.
pub open spec fn fragments_in_order(
    id: u16,
    tick: Option<u16>,
    chunks: Seq<Seq<u8>>,
    order: Seq<int>,
) -> Seq<FragmentView> {
    Seq::new(
        order.len(),
        |k: int|
            FragmentView {
                message_id: id,
                tick,
                fragment_id: order[k] as u8,
                num_fragments: chunks.len() as u8,
                bytes: chunks[order[k]],
            },
    )
}

/// The parts of a message once the fragments at the first `k` places of the
/// arrival order have arrived.
pub open spec fn arrived_parts(chunks: Seq<Seq<u8>>, position: Seq<int>, k: int) -> Seq<
    Option<Seq<u8>>,
> {
    Seq::new(
        chunks.len(),
        |i: int|
            if position[i] < k {
                Some(chunks[i])
            } else {
                None
            },
    )
}

/// A reassembler after a run of fragments, and the messages it handed out.
pub struct FragmentTrace {
    pub state: FragmentsView,
    pub yielded: Seq<SingleView>,
}

impl FragmentsView {
    /// The reassembler after the fragments `fragments`, in their order, and the
    /// whole messages that it handed out on the way.
    pub open spec fn feed(self, fragments: Seq<FragmentView>) -> FragmentTrace
        decreases fragments.len(),
    {
        if fragments.len() == 0 {
            FragmentTrace { state: self, yielded: Seq::empty() }
        } else {
            let before = self.feed(fragments.drop_last());
            let step = before.state.receive(fragments.last());
            FragmentTrace {
                state: step.state,
                yielded: match step.result {
                    Ok(Some(whole)) => before.yielded.push(whole),
                    _ => before.yielded,
                },
            }
        }
    }
}

proof fn lemma_concat_all_arrived(chunks: Seq<Seq<u8>>)
    ensures
        concat_parts(Seq::new(chunks.len(), |i: int| Some(chunks[i]))) == joined(chunks),
    decreases chunks.len(),
{
    let parts = Seq::new(chunks.len(), |i: int| Some(chunks[i]));
    if chunks.len() > 0 {
        let front = chunks.drop_last();
        lemma_concat_all_arrived(front);
        assert(parts.drop_last() =~= Seq::new(front.len(), |i: int| Some(front[i])));
    }
}

/// Reassembly. The fragments of one message arrive in any order at a
/// reassembler that holds nothing of that message and has a slot free. As
/// long as a fragment is missing, nothing is handed out and the slot holds
/// what has arrived. With the last fragment the reassembler hands out one
/// message, whose payload is the chunks joined in index order, and is as it
/// was before the first fragment.
pub proof fn lemma_reassembly(
    s: FragmentsView,
    id: u16,
    tick: Option<u16>,
    chunks: Seq<Seq<u8>>,
    order: Seq<int>,
    position: Seq<int>,
    k: int,
)
    requires
        s.wf(),
        !s.slots.contains_key(id),
        s.slots.dom().len() < s.capacity,
        1 <= chunks.len() <= 255,
        is_arrival_order(order, position, chunks.len() as int),
        0 <= k <= chunks.len(),
    ensures
        ({
            let t = s.feed(fragments_in_order(id, tick, chunks, order).take(k));
            &&& k < chunks.len() ==> t.yielded.len() == 0
            &&& 0 < k < chunks.len() ==> t.state == (FragmentsView {
                slots: s.slots.insert(
                    id,
                    SlotView { parts: arrived_parts(chunks, position, k), last_received: s.now },
                ),
                ..s
            })
            &&& k == 0 ==> t.state == s
            &&& k == chunks.len() ==> t.state == s && t.yielded == seq![
                SingleView { id: Some(id), tick, bytes: joined(chunks) },
            ]
        }),
    decreases k,
{
    let n = chunks.len() as int;
    let all = fragments_in_order(id, tick, chunks, order);
    if k > 0 {
        let j = k - 1;
        lemma_reassembly(s, id, tick, chunks, order, position, j);
        assert(all.take(k).drop_last() =~= all.take(j));
        assert(all.take(k).last() == all[j]);
        let before = s.feed(all.take(j));
        let f = all[j];
        let index = order[j];
        assert(0 <= index < n && position[index] == j);
        assert(f.fragment_id == index && f.num_fragments == n);
        let had = arrived_parts(chunks, position, j);
        assert(before.state.parts_of(id, n as nat) =~= had) by {
            if j == 0 {
                assert(no_parts(n as nat) =~= had);
            }
        }
        let parts = had.update(index, Some(f.bytes));
        assert(parts =~= arrived_parts(chunks, position, k)) by {
            assert forall|i: int| 0 <= i < n implies parts[i] == arrived_parts(
                chunks,
                position,
                k,
            )[i] by {
                assert(order[position[i]] == i);
            }
        }
        assert(!before.state.ignores(f));
        if k == n {
            assert(all_present(parts));
            assert(parts =~= Seq::new(chunks.len(), |i: int| Some(chunks[i])));
            lemma_concat_all_arrived(chunks);
            assert(before.state.slots.remove(id) =~= s.slots);
            assert(before.yielded.push(
                SingleView { id: Some(id), tick, bytes: joined(chunks) },
            ) =~= seq![SingleView { id: Some(id), tick, bytes: joined(chunks) }]);
        } else {
            let missing = order[k];
            assert(position[missing] == k);
            assert(parts[missing] is None);
            assert(!all_present(parts));
            assert(before.state.slots.insert(
                id,
                SlotView { parts, last_received: s.now },
            ) =~= s.slots.insert(id, SlotView { parts, last_received: s.now }));
        }
    } else {
        assert(all.take(0) =~= Seq::empty());
    }
}

/// The mathematical value of what a reassembler hands back.
pub open spec fn yield_view(r: Result<Option<SingleData>, ChannelError>) -> Result<
    Option<SingleView>,
    ChannelError,
> {
    match r {
        Ok(Some(data)) => Ok(Some(data@)),
        Ok(None) => Ok(None),
        Err(e) => Err(e),
    }
}

/// The fragments of one message that have arrived so far.
pub struct FragmentSlot {
    message_id: MessageId,
    parts: Vec<Option<Vec<u8>>>,
    last_received: u64,
}

/// Reassembles fragmented messages, one slot per message id.
pub struct FragmentReceiver {
    slots: Vec<FragmentSlot>,
    capacity: usize,
    now: u64,
}

spec fn parts_view(parts: Seq<Option<Vec<u8>>>) -> Seq<Option<Seq<u8>>> {
    Seq::new(
        parts.len(),
        |i: int|
            match parts[i] {
                Some(bytes) => Some(bytes@),
                None => None,
            },
    )
}

impl View for FragmentSlot {
    type V = SlotView;

    closed spec fn view(&self) -> SlotView {
        SlotView { parts: parts_view(self.parts@), last_received: self.last_received }
    }
}

spec fn slot_ids_distinct(slots: Seq<FragmentSlot>) -> bool {
    forall|i: int, j: int|
        0 <= i < j < slots.len() ==> (#[trigger] slots[i]).message_id.0 != (
        #[trigger] slots[j]).message_id.0
}

spec fn has_slot(slots: Seq<FragmentSlot>, id: u16) -> bool {
    exists|i: int| 0 <= i < slots.len() && (#[trigger] slots[i]).message_id.0 == id
}

spec fn slot_index(slots: Seq<FragmentSlot>, id: u16) -> int {
    choose|i: int| 0 <= i < slots.len() && (#[trigger] slots[i]).message_id.0 == id
}

spec fn slots_map(slots: Seq<FragmentSlot>) -> Map<u16, SlotView> {
    Map::new(|id: u16| has_slot(slots, id), |id: u16| slots[slot_index(slots, id)]@)
}

spec fn survives(slots: Seq<FragmentSlot>, now: u64, timeout: u64, checked_from: int, id: u16) -> bool {
    has_slot(slots, id) && (slot_index(slots, id) < checked_from || !slot_expired(
        slots_map(slots)[id],
        now,
        timeout,
    ))
}

proof fn lemma_slot_index(slots: Seq<FragmentSlot>, i: int)
    requires
        slot_ids_distinct(slots),
        0 <= i < slots.len(),
    ensures
        has_slot(slots, slots[i].message_id.0),
        slot_index(slots, slots[i].message_id.0) == i,
        slots_map(slots).contains_key(slots[i].message_id.0),
        slots_map(slots)[slots[i].message_id.0] == slots[i]@,
{
    let id = slots[i].message_id.0;
    let j = slot_index(slots, id);
    assert(0 <= j < slots.len() && slots[j].message_id.0 == id);
}

proof fn lemma_slots_push(slots: Seq<FragmentSlot>, slot: FragmentSlot)
    requires
        slot_ids_distinct(slots),
        !has_slot(slots, slot.message_id.0),
    ensures
        slot_ids_distinct(slots.push(slot)),
        slots_map(slots.push(slot)) == slots_map(slots).insert(slot.message_id.0, slot@),
{
    let after = slots.push(slot);
    assert(slot_ids_distinct(after)) by {
        assert forall|i: int, j: int| 0 <= i < j < after.len() implies (#[trigger] after[i]).message_id.0
            != (#[trigger] after[j]).message_id.0 by {
            if j == slots.len() {
                assert(slots[i].message_id.0 != slot.message_id.0);
            } else {
                assert(slots[i].message_id.0 != slots[j].message_id.0);
            }
        }
    }
    let expected = slots_map(slots).insert(slot.message_id.0, slot@);
    assert forall|id: u16| slots_map(after).contains_key(id) <==> expected.contains_key(id) by {
        if has_slot(after, id) {
            let i = slot_index(after, id);
            if i < slots.len() {
                assert(slots[i].message_id.0 == id);
            }
        }
        if has_slot(slots, id) {
            let i = slot_index(slots, id);
            assert(after[i].message_id.0 == id);
        }
        if id == slot.message_id.0 {
            assert(after[slots.len() as int].message_id.0 == id);
        }
    }
    assert forall|id: u16| slots_map(after).contains_key(id) implies slots_map(after)[id]
        == expected[id] by {
        let i = slot_index(after, id);
        lemma_slot_index(after, i);
        if i < slots.len() {
            lemma_slot_index(slots, i);
        }
    }
    assert(slots_map(after) =~= expected);
}

proof fn lemma_slots_remove(slots: Seq<FragmentSlot>, i: int)
    requires
        slot_ids_distinct(slots),
        0 <= i < slots.len(),
    ensures
        slot_ids_distinct(slots.remove(i)),
        !has_slot(slots.remove(i), slots[i].message_id.0),
        slots_map(slots.remove(i)) == slots_map(slots).remove(slots[i].message_id.0),
{
    let after = slots.remove(i);
    let gone = slots[i].message_id.0;
    assert forall|k: int| 0 <= k < after.len() implies #[trigger] after[k] == slots[if k < i {
        k
    } else {
        k + 1
    }] by {}
    assert(slot_ids_distinct(after)) by {
        assert forall|a: int, b: int| 0 <= a < b < after.len() implies (#[trigger] after[a]).message_id.0
            != (#[trigger] after[b]).message_id.0 by {
            let a2 = if a < i { a } else { a + 1 };
            let b2 = if b < i { b } else { b + 1 };
            assert(slots[a2].message_id.0 != slots[b2].message_id.0);
        }
    }
    assert(!has_slot(after, gone)) by {
        if has_slot(after, gone) {
            let k = slot_index(after, gone);
            let k2 = if k < i { k } else { k + 1 };
            assert(slots[k2].message_id.0 == gone);
            if k2 < i {
                assert(slots[k2].message_id.0 != slots[i].message_id.0);
            } else {
                assert(slots[i].message_id.0 != slots[k2].message_id.0);
            }
        }
    }
    let expected = slots_map(slots).remove(gone);
    assert forall|id: u16| slots_map(after).contains_key(id) <==> expected.contains_key(id) by {
        if has_slot(after, id) {
            let k = slot_index(after, id);
            let k2 = if k < i { k } else { k + 1 };
            assert(slots[k2].message_id.0 == id);
        }
        if has_slot(slots, id) && id != gone {
            let k = slot_index(slots, id);
            let k2 = if k < i { k } else { k - 1 };
            assert(after[k2].message_id.0 == id);
        }
    }
    assert forall|id: u16| slots_map(after).contains_key(id) implies slots_map(after)[id]
        == expected[id] by {
        let k = slot_index(after, id);
        lemma_slot_index(after, k);
        let k2 = if k < i { k } else { k + 1 };
        lemma_slot_index(slots, k2);
    }
    assert(slots_map(after) =~= expected);
}

proof fn lemma_slots_len(slots: Seq<FragmentSlot>)
    requires
        slot_ids_distinct(slots),
    ensures
        slots_map(slots).dom().finite(),
        slots_map(slots).dom().len() == slots.len(),
    decreases slots.len(),
{
    if slots.len() == 0 {
        assert(slots_map(slots).dom() =~= Set::<u16>::empty());
    } else {
        let front = slots.drop_last();
        let last = slots.last();
        assert(slots =~= front.push(last));
        assert(slot_ids_distinct(front)) by {
            assert forall|i: int, j: int| 0 <= i < j < front.len() implies (#[trigger] front[i]).message_id.0
                != (#[trigger] front[j]).message_id.0 by {
                assert(slots[i].message_id.0 != slots[j].message_id.0);
            }
        }
        assert(!has_slot(front, last.message_id.0)) by {
            if has_slot(front, last.message_id.0) {
                let k = slot_index(front, last.message_id.0);
                assert(slots[k].message_id.0 != slots[slots.len() - 1].message_id.0);
            }
        }
        lemma_slots_len(front);
        lemma_slots_push(front, last);
        assert(slots_map(slots).dom() =~= slots_map(front).dom().insert(last.message_id.0));
    }
}

/// Largest number of messages that a reassembler built by `new` holds at once.
pub const DEFAULT_SLOT_CAPACITY: usize = 1024;

fn all_arrived(parts: &Vec<Option<Vec<u8>>>) -> (r: bool)
    ensures
        r == all_present(parts_view(parts@)),
{
    let mut i: usize = 0;
    while i < parts.len()
        invariant
            i <= parts.len(),
            forall|k: int| 0 <= k < i ==> (#[trigger] parts_view(parts@)[k]) is Some,
        decreases parts.len() - i,
    {
        if parts[i].is_none() {
            assert(parts_view(parts@)[i as int] is None);
            return false;
        }
        i += 1;
    }
    true
}

fn assemble(parts: &Vec<Option<Vec<u8>>>) -> (bytes: Vec<u8>)
    ensures
        bytes@ == concat_parts(parts_view(parts@)),
{
    let ghost all = parts_view(parts@);
    let mut bytes: Vec<u8> = Vec::new();
    let mut i: usize = 0;
    assert(all.take(0) =~= Seq::empty());
    while i < parts.len()
        invariant
            i <= parts.len(),
            all == parts_view(parts@),
            bytes@ == concat_parts(all.take(i as int)),
        decreases parts.len() - i,
    {
        let ghost so_far = bytes@;
        assert(all.take(i as int + 1).drop_last() =~= all.take(i as int));
        assert(all.take(i as int + 1).last() == all[i as int]);
        match &parts[i] {
            Some(part) => {
                let mut j: usize = 0;
                while j < part.len()
                    invariant
                        j <= part.len(),
                        bytes@ == so_far + part@.take(j as int),
                    decreases part.len() - j,
                {
                    bytes.push(part[j]);
                    assert(part@.take(j as int + 1) =~= part@.take(j as int).push(part@[j as int]));
                    j += 1;
                }
                assert(part@.take(part.len() as int) =~= part@);
            },
            None => {
                assert(so_far + Seq::<u8>::empty() =~= so_far);
            },
        }
        i += 1;
    }
    assert(all.take(parts.len() as int) =~= all);
    bytes
}

fn empty_parts(n: usize) -> (parts: Vec<Option<Vec<u8>>>)
    ensures
        parts.len() == n,
        parts_view(parts@) == no_parts(n as nat),
{
    let mut parts: Vec<Option<Vec<u8>>> = Vec::new();
    let mut i: usize = 0;
    while i < n
        invariant
            i <= n,
            parts.len() == i,
            forall|k: int| 0 <= k < i ==> (#[trigger] parts[k]) is None,
        decreases n - i,
    {
        parts.push(None);
        i += 1;
    }
    assert(parts_view(parts@) =~= no_parts(n as nat));
    parts
}

impl View for FragmentReceiver {
    type V = FragmentsView;

    closed spec fn view(&self) -> FragmentsView {
        FragmentsView {
            slots: slots_map(self.slots@),
            capacity: self.capacity as nat,
            now: self.now,
        }
    }
}

impl FragmentReceiver {
    /// The invariant of the reassembler's representation.
    pub closed spec fn wf(&self) -> bool {
        &&& slot_ids_distinct(self.slots@)
        &&& self.slots.len() <= self.capacity
        &&& forall|i: int|
            0 <= i < self.slots.len() ==> 2 <= (#[trigger] self.slots[i]).parts.len() <= 255
                && !all_present(self.slots[i]@.parts)
    }

    /// A well-formed reassembler has a well-formed value.
    pub proof fn lemma_view_wf(&self)
        requires
            self.wf(),
        ensures
            self@.wf(),
    {
        lemma_slots_len(self.slots@);
        assert forall|id: u16| #[trigger] self@.slots.contains_key(id) implies 2
            <= self@.slots[id].parts.len() <= 255 && !all_present(self@.slots[id].parts) by {
            let i = slot_index(self.slots@, id);
            lemma_slot_index(self.slots@, i);
        }
    }

    /// A reassembler with no open slot, room for `DEFAULT_SLOT_CAPACITY`
    /// messages, and its clock at zero.
    pub fn new() -> (r: FragmentReceiver)
        ensures
            r.wf(),
            r@ == (FragmentsView {
                slots: Map::empty(),
                capacity: DEFAULT_SLOT_CAPACITY as nat,
                now: 0,
            }),
    {
        FragmentReceiver::with_capacity(DEFAULT_SLOT_CAPACITY)
    }

    /// A reassembler with no open slot, room for `capacity` messages, and its
    /// clock at zero.
    pub fn with_capacity(capacity: usize) -> (r: FragmentReceiver)
        ensures
            r.wf(),
            r@ == (FragmentsView { slots: Map::empty(), capacity: capacity as nat, now: 0 }),
    {
        let r = FragmentReceiver { slots: Vec::new(), capacity, now: 0 };
        assert(slots_map(r.slots@) =~= Map::empty());
        r
    }

    /// The number of messages under reassembly.
    pub fn open_slots(&self) -> (n: usize)
        requires
            self.wf(),
        ensures
            n == self@.slots.dom().len(),
    {
        proof {
            lemma_slots_len(self.slots@);
        }
        self.slots.len()
    }

    fn find(&self, id: MessageId) -> (r: Option<usize>)
        ensures
            match r {
                Some(i) => i < self.slots.len() && self.slots[i as int].message_id.0 == id.0,
                None => !has_slot(self.slots@, id.0),
            },
    {
        let mut i: usize = 0;
        while i < self.slots.len()
            invariant
                i <= self.slots.len(),
                forall|k: int| 0 <= k < i ==> (#[trigger] self.slots[k]).message_id.0 != id.0,
            decreases self.slots.len() - i,
        {
            if self.slots[i].message_id.0 == id.0 {
                return Some(i);
            }
            i += 1;
        }
        None
    }

    /// Takes one fragment, and hands out the whole message if the fragment
    /// completes it.
    pub fn receive_fragment(&mut self, fragment: FragmentData) -> (r: Result<
        Option<SingleData>,
        ChannelError,
    >)
        requires
            old(self).wf(),
        ensures
            final(self).wf(),
            final(self)@ == old(self)@.receive(fragment@).state,
            yield_view(r) == old(self)@.receive(fragment@).result,
    {
        let ghost before = self@;
        let ghost f = fragment@;
        let id = fragment.message_id;
        proof {
            lemma_slots_len(self.slots@);
        }
        if fragment.fragment_id >= fragment.num_fragments {
            return Ok(None);
        }
        let index = fragment.fragment_id as usize;
        let count = fragment.num_fragments as usize;
        match self.find(id) {
            Some(i) => {
                proof {
                    lemma_slot_index(self.slots@, i as int);
                    lemma_slots_remove(self.slots@, i as int);
                }
                if self.slots[i].parts.len() != count {
                    return Ok(None);
                }
                if self.slots[i].parts[index].is_some() {
                    assert(before.slots[id.0].parts[index as int] is Some);
                    return Ok(None);
                }
                assert(before.slots[id.0].parts[index as int] is None);
                let mut slot = self.slots.remove(i);
                let ghost old_parts = slot@.parts;
                slot.parts.set(index, Some(fragment.bytes));
                slot.last_received = self.now;
                assert(slot@.parts =~= old_parts.update(index as int, Some(f.bytes)));
                if all_arrived(&slot.parts) {
                    let bytes = assemble(&slot.parts);
                    Ok(Some(SingleData { id: Some(id), tick: fragment.tick, bytes }))
                } else {
                    proof {
                        lemma_slots_push(self.slots@, slot);
                        assert(before.slots.remove(id.0).insert(id.0, slot@)
                            =~= before.slots.insert(id.0, slot@));
                    }
                    self.slots.push(slot);
                    Ok(None)
                }
            },
            None => {
                let ghost parts = no_parts(count as nat).update(index as int, Some(f.bytes));
                if count == 1 {
                    proof {
                        assert(all_present(parts));
                        assert(parts.drop_last() =~= Seq::empty());
                        assert(concat_parts(parts) =~= f.bytes) by {
                            reveal_with_fuel(concat_parts, 2);
                        }
                        assert(before.slots.remove(id.0) =~= before.slots);
                    }
                    return Ok(
                        Some(SingleData { id: Some(id), tick: fragment.tick, bytes: fragment.bytes }),
                    );
                }
                proof {
                    let other = if index == 0 { 1int } else { 0int };
                    assert(parts[other] is None);
                    assert(!all_present(parts));
                }
                if self.slots.len() >= self.capacity {
                    return Err(ChannelError::FragmentSlotOverflow);
                }
                let mut stored = empty_parts(count);
                stored.set(index, Some(fragment.bytes));
                let slot = FragmentSlot { message_id: id, parts: stored, last_received: self.now };
                proof {
                    assert(slot@.parts =~= parts);
                    lemma_slots_push(self.slots@, slot);
                }
                self.slots.push(slot);
                Ok(None)
            },
        }
    }

    /// Sets the clock to `now` and closes every slot that has waited for
    /// `timeout` microseconds or more; what had arrived of those messages is
    /// dropped.
    pub fn collect(&mut self, now: u64, timeout: u64)
        requires
            old(self).wf(),
        ensures
            final(self).wf(),
            final(self)@ == old(self)@.collect(now, timeout),
    {
        let ghost before = self.slots@;
        self.now = now;
        let mut i: usize = self.slots.len();
        while i > 0
            invariant
                i <= self.slots.len() <= before.len(),
                before.len() <= self.capacity,
                self.capacity == old(self).capacity,
                self.now == now,
                slot_ids_distinct(before),
                slot_ids_distinct(self.slots@),
                forall|k: int| 0 <= k < i ==> self.slots[k] == before[k],
                forall|k: int|
                    0 <= k < self.slots.len() ==> 2 <= (#[trigger] self.slots[k]).parts.len() <= 255
                        && !all_present(self.slots[k]@.parts),
                forall|id: u16|
                    slots_map(self.slots@).contains_key(id) <==> #[trigger] survives(
                        before,
                        now,
                        timeout,
                        i as int,
                        id,
                    ),
                forall|id: u16| #[trigger]
                    slots_map(self.slots@).contains_key(id) ==> slots_map(self.slots@)[id]
                        == slots_map(before)[id],
            decreases i,
        {
            i -= 1;
            let ghost current = self.slots@;
            let ghost here = before[i as int].message_id.0;
            let last = self.slots[i].last_received;
            proof {
                lemma_slot_index(current, i as int);
                lemma_slot_index(before, i as int);
                lemma_slots_remove(current, i as int);
                assert(last == slots_map(before)[here].last_received);
                assert forall|id: u16| id != here implies (survives(
                    before,
                    now,
                    timeout,
                    i as int,
                    id,
                ) <==> survives(before, now, timeout, i as int + 1, id)) by {
                    if has_slot(before, id) {
                        lemma_slot_index(before, slot_index(before, id));
                    }
                }
                assert(survives(before, now, timeout, i as int + 1, here));
            }
            if now >= last && now - last >= timeout {
                self.slots.remove(i);
                proof {
                    assert(!survives(before, now, timeout, i as int, here));
                    assert forall|id: u16|
                        slots_map(self.slots@).contains_key(id) <==> #[trigger] survives(
                            before,
                            now,
                            timeout,
                            i as int,
                            id,
                        ) by {
                        if id != here {
                            assert(slots_map(current).contains_key(id) <==> survives(
                                before,
                                now,
                                timeout,
                                i as int + 1,
                                id,
                            ));
                        }
                    }
                    assert forall|k: int| 0 <= k < self.slots.len() implies 2 <= (
                    #[trigger] self.slots[k]).parts.len() <= 255 && !all_present(
                        self.slots[k]@.parts,
                    ) by {
                        let k2 = if k < i { k } else { k + 1 };
                        assert(self.slots[k] == current[k2]);
                    }
                }
            } else {
                proof {
                    assert(survives(before, now, timeout, i as int, here));
                    assert forall|id: u16|
                        slots_map(self.slots@).contains_key(id) <==> #[trigger] survives(
                            before,
                            now,
                            timeout,
                            i as int,
                            id,
                        ) by {
                        assert(slots_map(current).contains_key(id) <==> survives(
                            before,
                            now,
                            timeout,
                            i as int + 1,
                            id,
                        ));
                    }
                }
            }
        }
        proof {
            let kept = old(self)@.collect(now, timeout).slots;
            assert forall|id: u16| self@.slots.contains_key(id) <==> kept.contains_key(id) by {
                assert(slots_map(self.slots@).contains_key(id) <==> survives(
                    before,
                    now,
                    timeout,
                    0,
                    id,
                ));
                if has_slot(before, id) {
                    lemma_slot_index(before, slot_index(before, id));
                }
            }
            assert forall|id: u16| self@.slots.contains_key(id) implies self@.slots[id]
                == kept[id] by {
                assert(slots_map(self.slots@).contains_key(id));
                assert(kept.contains_key(id));
                assert(old(self)@.slots == slots_map(before));
            }
            assert(self@.slots =~= kept);
        }
    }
}

} // verus!
