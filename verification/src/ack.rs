//! Acknowledgement of packets.
//!
//! Every packet header tells the peer which packets have arrived: the id of
//! the latest one, and a field of 32 bits for the 32 ids before it, where bit
//! `k` stands for the packet `k + 1` ids before the latest.

use vstd::prelude::*;
use crate::wrapping_id::{forward_distance, wrapping_add_spec, wrapping_lt, PacketId};

verus! {

/// The latest-packet id that a header carries while no packet has arrived:
/// the id before the first one that the peer sends.
pub const NO_PACKET_YET: u16 = 65535;

/// Whether bit `k` of the field `bits` is set.
pub open spec fn bit_set(bits: u32, k: u32) -> bool {
    (bits >> k) & 1 == 1
}

/// Whether bit `k` of the field `bits` is set, for `k` from 0 to 31.
pub open spec fn bit_at(bits: u32, k: int) -> bool {
    bit_set(bits, k as u32)
}

/// Whether a header with the latest id `latest` and the field `bits`
/// acknowledges the packet `id`.
pub open spec fn header_acks(latest: u16, bits: u32, id: u16) -> bool {
    let back = forward_distance(id, latest);
    id == latest || (1 <= back <= 32 && bit_set(bits, (back - 1) as u32))
}

/// The field after the window has moved `ahead` ids forward: the latest id
/// so far becomes bit `ahead - 1`, and the ids that it left behind are gone.
pub open spec fn shifted(bits: u32, ahead: int) -> u32 {
    if ahead > 32 {
        0
    } else if ahead == 32 {
        1u32 << 31
    } else {
        (bits << (ahead as u32)) | (1u32 << ((ahead - 1) as u32))
    }
}

/// The field with the id `behind` ids before the latest marked as well.
pub open spec fn marked(bits: u32, behind: int) -> u32 {
    bits | (1u32 << ((behind - 1) as u32))
}

/// Mathematical value of the record of the packets that have arrived.
pub struct AckView {
    /// The id of the latest packet that has arrived, if any has.
    pub latest: Option<u16>,
    /// Bit `k` says whether the packet `k + 1` ids before the latest has arrived.
    pub bits: u32,
}

impl AckView {
    /// The record of a peer from which no packet has arrived.
    pub open spec fn empty() -> AckView {
        AckView { latest: None, bits: 0 }
    }

    /// Whether the record says that the packet `k + 1` ids before the latest
    /// has arrived, for `k` from 0 to 31.
    pub open spec fn prior(self, k: int) -> bool {
        bit_at(self.bits, k)
    }

    /// Whether the record says that the packet `id` has arrived.
    pub open spec fn acked(self, id: u16) -> bool {
        match self.latest {
            Some(latest) => {
                let back = forward_distance(id, latest);
                id == latest || (1 <= back <= 32 && self.prior(back - 1))
            },
            None => false,
        }
    }

    /// The latest id once the packet `id` has arrived: `id` if it is newer
    /// than the latest so far.
    pub open spec fn latest_after(self, id: u16) -> u16 {
        match self.latest {
            Some(latest) => if wrapping_lt(latest, id) {
                id
            } else {
                latest
            },
            None => id,
        }
    }

    /// The record once the packet `id` has arrived. A packet that is newer
    /// than the latest moves the window forward to itself. One that lies
    /// within the 32 ids before the latest is marked there. One that is
    /// older still, or the latest once more, changes nothing.
    pub open spec fn record(self, id: u16) -> AckView {
        match self.latest {
            None => AckView { latest: Some(id), bits: 0 },
            Some(latest) => {
                let ahead = forward_distance(latest, id);
                let behind = forward_distance(id, latest);
                if ahead == 0 {
                    self
                } else if ahead <= 32768 {
                    AckView { latest: Some(id), bits: shifted(self.bits, ahead) }
                } else if behind <= 32 {
                    AckView { latest: Some(latest), bits: marked(self.bits, behind) }
                } else {
                    self
                }
            },
        }
    }

    /// The record after the packets `ids` have arrived, in their order.
    pub open spec fn record_all(self, ids: Seq<u16>) -> AckView
        decreases ids.len(),
    {
        if ids.len() == 0 {
            self
        } else {
            self.record_all(ids.drop_last()).record(ids.last())
        }
    }

    /// What a header carries for the record: the latest id, and `NO_PACKET_YET`
    /// while no packet has arrived.
    pub open spec fn header_latest(self) -> u16 {
        match self.latest {
            Some(latest) => latest,
            None => NO_PACKET_YET,
        }
    }
}

proof fn lemma_bit_shifted(bits: u32, d: u32, k: u32)
    by (bit_vector)
    requires
        1 <= d < 32,
        k < 32,
    ensures
        ((((bits << d) | (1u32 << ((d - 1) as u32))) >> k) & 1 == 1) == (k == (d - 1) as u32 || (k
            >= d && ((bits >> ((k - d) as u32)) & 1 == 1))),
{
}

proof fn lemma_bit_single(b: u32, k: u32)
    by (bit_vector)
    requires
        b < 32,
        k < 32,
    ensures
        (((1u32 << b) >> k) & 1 == 1) == (k == b),
        ((0u32 >> k) & 1 == 1) == false,
{
}

proof fn lemma_bit_added(bits: u32, b: u32, k: u32)
    by (bit_vector)
    requires
        b < 32,
        k < 32,
    ensures
        (((bits | (1u32 << b)) >> k) & 1 == 1) == (k == b || ((bits >> k) & 1 == 1)),
{
}

proof fn lemma_step_back(latest: u16, k: int)
    requires
        0 <= k < 32,
    ensures
        forward_distance(wrapping_add_spec(latest, -(k + 1)), latest) == k + 1,
        wrapping_add_spec(latest, -(k + 1)) != latest,
{
}

proof fn lemma_prior_kept(w: AckView, latest: u16, k: int)
    requires
        w.latest == Some(latest),
        0 <= k < 32,
    ensures
        w.acked(wrapping_add_spec(latest, -(k + 1))) == w.prior(k),
{
    lemma_step_back(latest, k);
}

proof fn lemma_prior_moved(w: AckView, latest: u16, id: u16, k: int)
    requires
        w.latest == Some(latest),
        0 <= k < 32,
        1 <= forward_distance(latest, id) <= 32768,
    ensures
        ({
            let ahead = forward_distance(latest, id);
            let q = wrapping_add_spec(id, -(k + 1));
            &&& q != id
            &&& w.acked(q) == (k + 1 == ahead || (k + 1 > ahead && w.prior(k - ahead)))
        }),
{
    let ahead = forward_distance(latest, id);
    let q = wrapping_add_spec(id, -(k + 1));
    lemma_step_back(id, k);
    let back = forward_distance(q, latest);
    if k + 1 == ahead {
        assert(q == latest);
    } else if k + 1 > ahead {
        assert(back == k + 1 - ahead);
    } else {
        assert(back == 65536 + k + 1 - ahead);
    }
}

proof fn lemma_no_bits()
    ensures
        forall|k: int| 0 <= k < 32 ==> #[trigger] bit_at(0u32, k) == false,
{
    assert forall|k: int| 0 <= k < 32 implies #[trigger] bit_at(0u32, k) == false by {
        lemma_bit_single(0, k as u32);
    }
}

proof fn lemma_shifted_bit(bits: u32, ahead: int, k: int)
    requires
        1 <= ahead <= 32768,
        0 <= k < 32,
    ensures
        bit_at(shifted(bits, ahead), k) == (k + 1 == ahead || (k + 1 > ahead && bit_at(
            bits,
            k - ahead,
        ))),
{
    if ahead > 32 {
        lemma_bit_single(0, k as u32);
    } else if ahead == 32 {
        lemma_bit_single(31, k as u32);
    } else {
        lemma_bit_shifted(bits, ahead as u32, k as u32);
    }
}

proof fn lemma_marked_bit(bits: u32, behind: int, k: int)
    requires
        1 <= behind <= 32,
        0 <= k < 32,
    ensures
        bit_at(marked(bits, behind), k) == (k + 1 == behind || bit_at(bits, k)),
{
    lemma_bit_added(bits, (behind - 1) as u32, k as u32);
}

/// What one arrival does to the record. The window ends at the newer of the
/// packet and the latest so far, and bit `k` stands for the packet `k + 1`
/// ids before that end: it is set if and only if that packet is the one that
/// has just arrived or the record held it before.
pub proof fn lemma_record_marks(w: AckView, id: u16, k: int)
    requires
        0 <= k < 32,
    ensures
        w.record(id).latest == Some(w.latest_after(id)),
        w.record(id).prior(k) == (wrapping_add_spec(w.latest_after(id), -(k + 1)) == id
            || w.acked(wrapping_add_spec(w.latest_after(id), -(k + 1)))),
{
    match w.latest {
        None => {
            lemma_no_bits();
            lemma_step_back(id, k);
        },
        Some(latest) => {
            let ahead = forward_distance(latest, id);
            let behind = forward_distance(id, latest);
            if ahead == 0 {
                lemma_prior_kept(w, latest, k);
                lemma_step_back(latest, k);
            } else if ahead <= 32768 {
                lemma_prior_moved(w, latest, id, k);
                lemma_shifted_bit(w.bits, ahead, k);
            } else {
                lemma_prior_kept(w, latest, k);
                lemma_step_back(latest, k);
                if behind <= 32 {
                    lemma_marked_bit(w.bits, behind, k);
                }
            }
        },
    }
}

/// The id that the `n`-th packet of a connection carries.
pub open spec fn id_of(n: int) -> u16 {
    (n % 65536) as u16
}

/// The ids of the packets with the numbers `numbers`.
pub open spec fn ids_of(numbers: Seq<int>) -> Seq<u16> {
    Seq::new(numbers.len(), |i: int| id_of(numbers[i]))
}

/// The largest of `numbers`.
pub open spec fn newest(numbers: Seq<int>) -> int
    decreases numbers.len(),
{
    if numbers.len() <= 1 {
        numbers[0]
    } else if numbers.last() > newest(numbers.drop_last()) {
        numbers.last()
    } else {
        newest(numbers.drop_last())
    }
}

/// Whether the packets with the numbers `numbers` can arrive in this order
/// on a connection: each lies less than 32768 packets behind the newest one
/// that arrived before it, and at most 32768 ahead of it.
pub open spec fn in_flight(numbers: Seq<int>) -> bool {
    forall|i: int|
        1 <= i < numbers.len() ==> -32768 < #[trigger] numbers[i] - newest(numbers.take(i))
            <= 32768
}

proof fn lemma_newest(numbers: Seq<int>)
    requires
        numbers.len() > 0,
    ensures
        numbers.contains(newest(numbers)),
        forall|i: int| 0 <= i < numbers.len() ==> #[trigger] numbers[i] <= newest(numbers),
    decreases numbers.len(),
{
    if numbers.len() > 1 {
        let front = numbers.drop_last();
        lemma_newest(front);
        let j = choose|j: int| 0 <= j < front.len() && front[j] == newest(front);
        assert(numbers[j] == front[j]);
        assert(numbers[numbers.len() - 1] == numbers.last());
        assert forall|i: int| 0 <= i < numbers.len() implies #[trigger] numbers[i] <= newest(
            numbers,
        ) by {
            if i < front.len() {
                assert(front[i] == numbers[i]);
            }
        }
    } else {
        assert(numbers[0] == newest(numbers));
    }
}

/// Whether the record `w` reports the arrivals `numbers`: it names the newest
/// of them as the latest, and bit `k` says whether the packet `k + 1` before
/// the newest is among them.
pub open spec fn reports(w: AckView, numbers: Seq<int>) -> bool {
    &&& w.latest == Some(id_of(newest(numbers)))
    &&& forall|k: int|
        0 <= k < 32 ==> #[trigger] w.prior(k) == numbers.contains(newest(numbers) - (k + 1))
}

proof fn lemma_id_distance(a: int, b: int)
    requires
        0 <= b - a < 65536,
    ensures
        forward_distance(id_of(a), id_of(b)) == b - a,
        (id_of(a) == id_of(b)) == (a == b),
{
}

proof fn lemma_id_before(n: int, k: int)
    requires
        0 <= k < 32,
    ensures
        wrapping_add_spec(id_of(n), -(k + 1)) == id_of(n - (k + 1)),
{
}

proof fn lemma_contains_pushed(front: Seq<int>, n: int, m: int)
    ensures
        front.push(n).contains(m) <==> (front.contains(m) || m == n),
{
    let all = front.push(n);
    if all.contains(m) {
        let j = choose|j: int| 0 <= j < all.len() && all[j] == m;
        if j < front.len() {
            assert(front[j] == m);
        }
    }
    if front.contains(m) {
        let j = choose|j: int| 0 <= j < front.len() && front[j] == m;
        assert(all[j] == m);
    }
    if m == n {
        assert(all[front.len() as int] == m);
    }
}

proof fn lemma_newest_pushed(front: Seq<int>, n: int)
    requires
        front.len() > 0,
    ensures
        newest(front.push(n)) == if n > newest(front) {
            n
        } else {
            newest(front)
        },
{
    assert(front.push(n).drop_last() =~= front);
}

proof fn lemma_report_newer_bit(w: AckView, front: Seq<int>, n: int, k: int)
    requires
        front.len() > 0,
        reports(w, front),
        0 < n - newest(front) <= 32768,
        0 <= k < 32,
    ensures
        w.record(id_of(n)).prior(k) == front.push(n).contains(n - (k + 1)),
{
    let top = newest(front);
    let ahead = n - top;
    lemma_newest(front);
    lemma_id_distance(top, n);
    lemma_record_marks(w, id_of(n), k);
    lemma_prior_moved(w, id_of(top), id_of(n), k);
    lemma_contains_pushed(front, n, n - (k + 1));
    if k + 1 > ahead {
        assert(w.prior(k - ahead) == front.contains(top - (k - ahead + 1)));
    } else if k + 1 < ahead {
        if front.contains(n - (k + 1)) {
            let j = choose|j: int| 0 <= j < front.len() && front[j] == n - (k + 1);
            assert(front[j] <= top);
        }
    }
}

proof fn lemma_report_older_bit(w: AckView, front: Seq<int>, n: int, k: int)
    requires
        front.len() > 0,
        reports(w, front),
        -32768 < n - newest(front) <= 0,
        0 <= k < 32,
    ensures
        w.record(id_of(n)).prior(k) == front.push(n).contains(newest(front) - (k + 1)),
{
    let top = newest(front);
    lemma_id_distance(n, top);
    lemma_id_before(top, k);
    lemma_record_marks(w, id_of(n), k);
    lemma_prior_kept(w, id_of(top), k);
    lemma_contains_pushed(front, n, top - (k + 1));
    if top - (k + 1) >= n {
        lemma_id_distance(n, top - (k + 1));
    } else {
        lemma_id_distance(top - (k + 1), n);
    }
}

/// One more arrival keeps the report true.
pub proof fn lemma_report_step(w: AckView, front: Seq<int>, n: int)
    requires
        front.len() > 0,
        reports(w, front),
        -32768 < n - newest(front) <= 32768,
    ensures
        reports(w.record(id_of(n)), front.push(n)),
{
    let top = newest(front);
    let after = w.record(id_of(n));
    lemma_newest_pushed(front, n);
    if n > top {
        lemma_id_distance(top, n);
        assert forall|k: int| 0 <= k < 32 implies #[trigger] after.prior(k) == front.push(
            n,
        ).contains(n - (k + 1)) by {
            lemma_report_newer_bit(w, front, n, k);
        }
    } else {
        lemma_id_distance(n, top);
        assert forall|k: int| 0 <= k < 32 implies #[trigger] after.prior(k) == front.push(
            n,
        ).contains(top - (k + 1)) by {
            lemma_report_older_bit(w, front, n, k);
        }
    }
}

/// What the header reports. The packets of a connection arrive in any order
/// that a connection allows. Then the record names the newest of them as the
/// latest, and of the 32 packets before that one it marks exactly those that
/// have arrived: bit `k` stands for the packet `k + 1` before the latest.
pub proof fn lemma_window_reports_arrivals(numbers: Seq<int>)
    requires
        numbers.len() > 0,
        in_flight(numbers),
    ensures
        reports(AckView::empty().record_all(ids_of(numbers)), numbers),
    decreases numbers.len(),
{
    let ids = ids_of(numbers);
    let n = numbers.last();
    let front = numbers.drop_last();
    assert(ids.drop_last() =~= ids_of(front));
    assert(ids.last() == id_of(n));
    assert(numbers =~= front.push(n));
    if numbers.len() == 1 {
        assert(ids.drop_last() =~= Seq::<u16>::empty());
        let w = AckView::empty().record(id_of(n));
        assert(AckView::empty().record_all(ids) == w);
        assert forall|k: int| 0 <= k < 32 implies #[trigger] w.prior(k) == numbers.contains(
            n - (k + 1),
        ) by {
            lemma_no_bits();
            lemma_contains_pushed(front, n, n - (k + 1));
        }
    } else {
        assert(in_flight(front)) by {
            assert forall|i: int| 1 <= i < front.len() implies -32768 < #[trigger] front[i]
                - newest(front.take(i)) <= 32768 by {
                assert(front.take(i) =~= numbers.take(i));
                assert(front[i] == numbers[i]);
            }
        }
        lemma_window_reports_arrivals(front);
        let i = numbers.len() - 1;
        assert(numbers.take(i) =~= front);
        assert(-32768 < numbers[i] - newest(front) <= 32768);
        lemma_report_step(AckView::empty().record_all(ids_of(front)), front, n);
    }
}

/// The packets that have arrived from the peer, as the next header will
/// report them.
#[derive(Clone, Copy, Debug, PartialEq, Eq)]
pub struct AckWindow {
    latest: Option<PacketId>,
    bits: u32,
}

impl View for AckWindow {
    type V = AckView;

    closed spec fn view(&self) -> AckView {
        AckView {
            latest: match self.latest {
                Some(id) => Some(id.0),
                None => None,
            },
            bits: self.bits,
        }
    }
}

impl AckWindow {
    /// The record of a peer from which no packet has arrived.
    pub fn new() -> (r: AckWindow)
        ensures
            r@ == AckView::empty(),
    {
        AckWindow { latest: None, bits: 0 }
    }

    /// Records that the packet `id` has arrived.
    pub fn record(&mut self, id: PacketId)
        ensures
            final(self)@ == old(self)@.record(id.0),
    {
        match self.latest {
            None => {
                self.latest = Some(id);
                self.bits = 0;
            },
            Some(latest) => {
                let ahead: u16 = id.0.wrapping_sub(latest.0);
                if ahead == 0 {
                } else if ahead <= 32768 {
                    if ahead > 32 {
                        self.bits = 0;
                    } else if ahead == 32 {
                        self.bits = 1u32 << 31;
                    } else {
                        self.bits = (self.bits << (ahead as u32)) | (1u32 << ((ahead - 1) as u32));
                    }
                    self.latest = Some(id);
                } else {
                    let behind: u16 = latest.0.wrapping_sub(id.0);
                    if behind <= 32 {
                        self.bits = self.bits | (1u32 << ((behind - 1) as u32));
                    }
                }
            },
        }
    }

    /// Whether the record says that the packet `id` has arrived.
    pub fn is_acked(&self, id: PacketId) -> (r: bool)
        ensures
            r == self@.acked(id.0),
    {
        match self.latest {
            None => false,
            Some(latest) => {
                let back: u16 = latest.0.wrapping_sub(id.0);
                back == 0 || (back <= 32 && (self.bits >> ((back - 1) as u32)) & 1 == 1)
            },
        }
    }

    /// What the next header carries: the latest id and the field of the 32
    /// ids before it. While no packet has arrived, the header carries
    /// `NO_PACKET_YET` in place of the latest id.
    pub fn header(&self) -> (r: (PacketId, u32))
        ensures
            r.0.0 == self@.header_latest(),
            r.1 == self@.bits,
    {
        match self.latest {
            Some(latest) => (latest, self.bits),
            None => (PacketId(NO_PACKET_YET), self.bits),
        }
    }
}

/// Whether a header with the latest id `latest` and the field `bits`
/// acknowledges the packet `id`.
pub fn header_acks_packet(latest: PacketId, bits: u32, id: PacketId) -> (r: bool)
    ensures
        r == header_acks(latest.0, bits, id.0),
{
    let back: u16 = latest.0.wrapping_sub(id.0);
    back == 0 || (back <= 32 && (bits >> ((back - 1) as u32)) & 1 == 1)
}

} // verus!
