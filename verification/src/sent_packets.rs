//! The packets that were sent and are not acknowledged yet.
//!
//! For every packet that leaves, the sender notes which messages of which
//! channels it carried. When a header acknowledges the packet, those messages
//! are retired: their channels need not send them again.

use vstd::prelude::*;
use crate::ack::{header_acks, header_acks_packet};
use crate::wrapping_id::{forward_distance, wrapping_add_spec, wrapping_lt, PacketId};

verus! {

/// Largest number of packets that may wait for their acknowledgement at once.
pub const MAX_UNACKED_PACKETS: usize = 1024;

/// Why the sender refuses what the peer or the connection asks of it.
#[derive(Clone, Copy, Debug, PartialEq, Eq, Structural)]
pub enum ProtocolViolation {
    /// A header acknowledges a packet that was never sent.
    UnknownPacket,
    /// Too many packets wait for their acknowledgement.
    TooManyUnacked,
}

/// A message as a packet's record names it: its channel, its id, and, where
/// the packet carried one fragment of it, the fragment's index.
#[derive(Clone, Copy, Debug, PartialEq, Eq)]
pub struct MessageAck {
    pub channel: u16,
    pub message_id: u16,
    pub fragment: Option<u8>,
}

/// Mathematical value of the record of one sent packet.
pub struct SentRecordView {
    pub packet_id: u16,
    pub messages: Seq<MessageAck>,
}

/// Mathematical value of the sender's records.
pub struct SentView {
    /// The id that the next packet gets.
    pub next: u16,
    /// The packets that wait for their acknowledgement, oldest first.
    pub records: Seq<SentRecordView>,
}

/// Whether a header with the latest id `latest` has left the packet `id`
/// behind: the packet is older than the 32 ids that the header speaks of, so
/// no later header can acknowledge it.
pub open spec fn left_behind(latest: u16, id: u16) -> bool {
    32 < forward_distance(id, latest) <= 32768
}

/// Whether the record of the packet `id` stays after a header with the
/// latest id `latest` and the field `bits`.
pub open spec fn stays(latest: u16, bits: u32, id: u16) -> bool {
    !header_acks(latest, bits, id) && !left_behind(latest, id)
}

/// The records that stay after the header.
pub open spec fn kept_records(records: Seq<SentRecordView>, latest: u16, bits: u32) -> Seq<
    SentRecordView,
>
    decreases records.len(),
{
    if records.len() == 0 {
        Seq::empty()
    } else if stays(latest, bits, records.last().packet_id) {
        kept_records(records.drop_last(), latest, bits).push(records.last())
    } else {
        kept_records(records.drop_last(), latest, bits)
    }
}

/// The messages that the header retires: those of the acknowledged packets,
/// in the order in which the packets were sent.
pub open spec fn retired_messages(records: Seq<SentRecordView>, latest: u16, bits: u32) -> Seq<
    MessageAck,
>
    decreases records.len(),
{
    if records.len() == 0 {
        Seq::empty()
    } else if header_acks(latest, bits, records.last().packet_id) {
        retired_messages(records.drop_last(), latest, bits) + records.last().messages
    } else {
        retired_messages(records.drop_last(), latest, bits)
    }
}

/// The sender's records after a header, and what it asked for.
pub struct AckStep {
    pub state: SentView,
    pub result: Result<Seq<MessageAck>, ProtocolViolation>,
}

impl SentView {
    /// No two records speak of the same packet, and there are no more of
    /// them than may wait at once.
    pub open spec fn wf(self) -> bool {
        &&& self.records.len() <= MAX_UNACKED_PACKETS
        &&& forall|i: int, j: int|
            0 <= i < j < self.records.len() ==> (#[trigger] self.records[i]).packet_id != (
            #[trigger] self.records[j]).packet_id
    }

    /// Whether a record speaks of the packet `id`.
    pub open spec fn tracks(self, id: u16) -> bool {
        exists|i: int| 0 <= i < self.records.len() && (#[trigger] self.records[i]).packet_id == id
    }

    /// Whether a new packet can be recorded: a slot is free, and the id that
    /// the packet would get is not that of a packet that still waits.
    pub open spec fn has_room(self) -> bool {
        self.records.len() < MAX_UNACKED_PACKETS && !self.tracks(self.next)
    }

    /// The records once a packet with the messages `messages` has left.
    pub open spec fn register(self, messages: Seq<MessageAck>) -> SentView {
        SentView {
            next: wrapping_add_spec(self.next, 1),
            records: self.records.push(SentRecordView { packet_id: self.next, messages }),
        }
    }

    /// The records after a header with the latest id `latest` and the field
    /// `bits`, and the messages that it retires.
    ///
    /// A header whose latest id is not older than the next id to send speaks
    /// of a packet that was never sent: it is refused and changes nothing.
    /// Else the acknowledged packets leave the records and their messages are
    /// retired, and the packets that the header has left behind leave too.
    pub open spec fn process_acks(self, latest: u16, bits: u32) -> AckStep {
        if !wrapping_lt(latest, self.next) {
            AckStep { state: self, result: Err(ProtocolViolation::UnknownPacket) }
        } else {
            AckStep {
                state: SentView {
                    records: kept_records(self.records, latest, bits),
                    ..self
                },
                result: Ok(retired_messages(self.records, latest, bits)),
            }
        }
    }
}

/// What stays after a header is a part of what was there: its packets are
/// among the old ones, in their order.
pub proof fn lemma_kept_is_part(records: Seq<SentRecordView>, latest: u16, bits: u32)
    ensures
        kept_records(records, latest, bits).len() <= records.len(),
        forall|i: int|
            0 <= i < kept_records(records, latest, bits).len() ==> stays(
                latest,
                bits,
                (#[trigger] kept_records(records, latest, bits)[i]).packet_id,
            ) && records.contains(kept_records(records, latest, bits)[i]),
        (forall|i: int, j: int|
            0 <= i < j < records.len() ==> (#[trigger] records[i]).packet_id != (
            #[trigger] records[j]).packet_id) ==> (forall|i: int, j: int|
            0 <= i < j < kept_records(records, latest, bits).len() ==> (#[trigger] kept_records(
                records,
                latest,
                bits,
            )[i]).packet_id != (#[trigger] kept_records(records, latest, bits)[j]).packet_id),
    decreases records.len(),
{
    let kept = kept_records(records, latest, bits);
    if records.len() > 0 {
        let front = records.drop_last();
        lemma_kept_is_part(front, latest, bits);
        let kept_front = kept_records(front, latest, bits);
        assert forall|i: int| 0 <= i < kept.len() implies stays(
            latest,
            bits,
            (#[trigger] kept[i]).packet_id,
        ) && records.contains(kept[i]) by {
            if i < kept_front.len() {
                assert(kept[i] == kept_front[i]);
                let j = choose|j: int| 0 <= j < front.len() && front[j] == kept_front[i];
                assert(records[j] == kept[i]);
            } else {
                assert(records[records.len() - 1] == kept[i]);
            }
        }
        if forall|i: int, j: int|
            0 <= i < j < records.len() ==> (#[trigger] records[i]).packet_id != (
            #[trigger] records[j]).packet_id {
            assert forall|i: int, j: int| 0 <= i < j < front.len() implies (
            #[trigger] front[i]).packet_id != (#[trigger] front[j]).packet_id by {
                assert(records[i].packet_id != records[j].packet_id);
            }
            assert forall|i: int, j: int| 0 <= i < j < kept.len() implies (
            #[trigger] kept[i]).packet_id != (#[trigger] kept[j]).packet_id by {
                if j < kept_front.len() {
                    assert(kept_front[i].packet_id != kept_front[j].packet_id);
                } else {
                    assert(kept[i] == kept_front[i]);
                    let a = choose|a: int| 0 <= a < front.len() && front[a] == kept_front[i];
                    assert(records[a].packet_id != records[records.len() - 1].packet_id);
                }
            }
        }
    }
}

/// Idempotence of acknowledgement. A header that is processed a second
/// time retires nothing and changes nothing.
pub proof fn lemma_replayed_acks_change_nothing(s: SentView, latest: u16, bits: u32)
    requires
        s.process_acks(latest, bits).result is Ok,
    ensures
        s.process_acks(latest, bits).state.process_acks(latest, bits).state == s.process_acks(
            latest,
            bits,
        ).state,
        s.process_acks(latest, bits).state.process_acks(latest, bits).result == Ok::<
            Seq<MessageAck>,
            ProtocolViolation,
        >(Seq::empty()),
{
    lemma_kept_twice(s.records, latest, bits);
}

proof fn lemma_kept_twice(records: Seq<SentRecordView>, latest: u16, bits: u32)
    ensures
        kept_records(kept_records(records, latest, bits), latest, bits) == kept_records(
            records,
            latest,
            bits,
        ),
        retired_messages(kept_records(records, latest, bits), latest, bits) == Seq::<
            MessageAck,
        >::empty(),
    decreases records.len(),
{
    if records.len() > 0 {
        let front = records.drop_last();
        lemma_kept_twice(front, latest, bits);
        if stays(latest, bits, records.last().packet_id) {
            let kept = kept_records(records, latest, bits);
            assert(kept.drop_last() =~= kept_records(front, latest, bits));
            assert(kept.last() == records.last());
        }
    }
}

/// The record of one sent packet.
pub struct SentRecord {
    packet_id: PacketId,
    messages: Vec<MessageAck>,
}

impl View for SentRecord {
    type V = SentRecordView;

    closed spec fn view(&self) -> SentRecordView {
        SentRecordView { packet_id: self.packet_id.0, messages: self.messages@ }
    }
}

/// The packets that were sent and wait for their acknowledgement.
pub struct SentPackets {
    next_packet_id: PacketId,
    records: Vec<SentRecord>,
}

spec fn records_view(records: Seq<SentRecord>) -> Seq<SentRecordView> {
    Seq::new(records.len(), |i: int| records[i]@)
}

impl View for SentPackets {
    type V = SentView;

    closed spec fn view(&self) -> SentView {
        SentView { next: self.next_packet_id.0, records: records_view(self.records@) }
    }
}

impl SentPackets {
    /// No packet was sent yet; the first one gets the id 0.
    pub fn new() -> (r: SentPackets)
        ensures
            r@ == (SentView { next: 0, records: Seq::empty() }),
            r@.wf(),
    {
        let r = SentPackets { next_packet_id: PacketId(0), records: Vec::new() };
        assert(r@.records =~= Seq::empty());
        r
    }

    /// The id that the next packet gets.
    pub fn next_packet_id(&self) -> (id: PacketId)
        ensures
            id.0 == self@.next,
    {
        self.next_packet_id
    }

    /// The number of packets that wait for their acknowledgement.
    pub fn unacked_len(&self) -> (n: usize)
        ensures
            n == self@.records.len(),
    {
        self.records.len()
    }

    /// Whether a record speaks of the packet `id`.
    pub fn is_tracked(&self, id: PacketId) -> (r: bool)
        ensures
            r == self@.tracks(id.0),
    {
        let mut i: usize = 0;
        while i < self.records.len()
            invariant
                i <= self.records.len(),
                forall|k: int| 0 <= k < i ==> (#[trigger] self@.records[k]).packet_id != id.0,
            decreases self.records.len() - i,
        {
            if self.records[i].packet_id.0 == id.0 {
                assert(self@.records[i as int].packet_id == id.0);
                return true;
            }
            i += 1;
        }
        false
    }

    /// Records a packet that leaves with the messages `messages`, and gives
    /// the id that the packet carries. Where no packet can be recorded,
    /// nothing changes and the connection has too many packets in flight.
    pub fn register(&mut self, messages: Vec<MessageAck>) -> (r: Result<
        PacketId,
        ProtocolViolation,
    >)
        requires
            old(self)@.wf(),
        ensures
            final(self)@.wf(),
            match r {
                Ok(id) => old(self)@.has_room() && id.0 == old(self)@.next && final(self)@ == old(self)@.register(messages@),
                Err(e) => !old(self)@.has_room() && e == ProtocolViolation::TooManyUnacked && final(self)@ == old(self)@,
            },
    {
        if self.records.len() >= MAX_UNACKED_PACKETS || self.is_tracked(self.next_packet_id) {
            return Err(ProtocolViolation::TooManyUnacked);
        }
        let id = self.next_packet_id;
        let ghost before = self@;
        self.records.push(SentRecord { packet_id: id, messages });
        self.next_packet_id = id.next();
        proof {
            assert(self@.records =~= before.register(messages@).records);
            assert forall|i: int, j: int| 0 <= i < j < self@.records.len() implies (
            #[trigger] self@.records[i]).packet_id != (#[trigger] self@.records[j]).packet_id by {
                assert(self@.records[i] == before.records[i]);
                if j < before.records.len() {
                    assert(self@.records[j] == before.records[j]);
                }
            }
        }
        Ok(id)
    }

    /// Takes the acknowledgements of a header: the latest id `latest` and the
    /// field `bits` for the 32 ids before it. Hands out the messages that
    /// the header retires.
    pub fn process_acks(&mut self, latest: PacketId, bits: u32) -> (r: Result<
        Vec<MessageAck>,
        ProtocolViolation,
    >)
        requires
            old(self)@.wf(),
        ensures
            final(self)@.wf(),
            final(self)@ == old(self)@.process_acks(latest.0, bits).state,
            match r {
                Ok(retired) => old(self)@.process_acks(latest.0, bits).result == Ok::<
                    Seq<MessageAck>,
                    ProtocolViolation,
                >(retired@),
                Err(e) => old(self)@.process_acks(latest.0, bits).result == Err::<
                    Seq<MessageAck>,
                    ProtocolViolation,
                >(e),
            },
    {
        if !latest.is_before(self.next_packet_id) {
            return Err(ProtocolViolation::UnknownPacket);
        }
        let ghost before = self@.records;
        let mut retired: Vec<MessageAck> = Vec::new();
        let mut i: usize = 0;
        let ghost mut done: int = 0;
        proof {
            assert(before.take(0) =~= Seq::empty());
            assert(self@.records =~= kept_records(before.take(0), latest.0, bits) + before.skip(0));
        }
        while i < self.records.len()
            invariant
                self.next_packet_id == old(self).next_packet_id,
                0 <= done <= before.len(),
                i == kept_records(before.take(done), latest.0, bits).len(),
                i <= self.records.len(),
                self.records.len() - i == before.len() - done,
                self@.records == kept_records(before.take(done), latest.0, bits) + before.skip(
                    done,
                ),
                retired@ == retired_messages(before.take(done), latest.0, bits),
            decreases self.records.len() - i,
        {
            let ghost current = self@.records;
            let id = self.records[i].packet_id;
            proof {
                assert(current[i as int] == before.skip(done)[0]);
                assert(before.take(done + 1).drop_last() =~= before.take(done));
                assert(before.take(done + 1).last() == before[done]);
                assert(self.records[i as int]@ == before[done]);
            }
            let acked = header_acks_packet(latest, bits, id);
            let behind: u16 = latest.0.wrapping_sub(id.0);
            if acked {
                let record = self.records.remove(i);
                let mut k: usize = 0;
                let ghost so_far = retired@;
                while k < record.messages.len()
                    invariant
                        k <= record.messages.len(),
                        retired@ == so_far + record.messages@.take(k as int),
                    decreases record.messages.len() - k,
                {
                    retired.push(record.messages[k]);
                    assert(record.messages@.take(k as int + 1) =~= record.messages@.take(
                        k as int,
                    ).push(record.messages@[k as int]));
                    k += 1;
                }
                proof {
                    assert(record.messages@.take(record.messages.len() as int)
                        =~= record.messages@);
                    assert(record@ == before[done]);
                    assert(!stays(latest.0, bits, before[done].packet_id));
                    assert(kept_records(before.take(done + 1), latest.0, bits) == kept_records(
                        before.take(done),
                        latest.0,
                        bits,
                    ));
                    assert(self@.records =~= current.remove(i as int));
                    assert(self@.records =~= kept_records(before.take(done + 1), latest.0, bits)
                        + before.skip(done + 1));
                }
            } else if behind > 32 && behind <= 32768 {
                self.records.remove(i);
                proof {
                    assert(left_behind(latest.0, before[done].packet_id));
                    assert(kept_records(before.take(done + 1), latest.0, bits) == kept_records(
                        before.take(done),
                        latest.0,
                        bits,
                    ));
                    assert(self@.records =~= current.remove(i as int));
                    assert(self@.records =~= kept_records(before.take(done + 1), latest.0, bits)
                        + before.skip(done + 1));
                }
            } else {
                proof {
                    assert(self@.records =~= kept_records(before.take(done + 1), latest.0, bits)
                        + before.skip(done + 1));
                }
                i += 1;
            }
            proof {
                done = done + 1;
            }
        }
        proof {
            assert(before.take(done) =~= before);
            assert(before.skip(done) =~= Seq::empty());
            assert(self@.records =~= kept_records(before, latest.0, bits));
            lemma_kept_is_part(before, latest.0, bits);
        }
        Ok(retired)
    }
}

} // verus!
