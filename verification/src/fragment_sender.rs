//! Cutting a message that is too large for one packet into fragments.

use vstd::prelude::*;
use crate::fragment_receiver::{
    fragments_in_order, is_arrival_order, joined, lemma_reassembly, FragmentsView,
};
use crate::message::{FragmentData, FragmentView, SingleView};
use crate::wrapping_id::{MessageId, Tick};

verus! {

/// Largest payload that travels whole, and the size of every fragment but the last.
pub const FRAGMENT_SIZE: usize = 1024;

/// Largest number of fragments that a message can be cut into.
pub const MAX_FRAGMENTS: usize = 255;

/// The number of fragments of `size` bytes that a payload of `len` bytes makes.
pub open spec fn fragment_count(len: int, size: int) -> int {
    (len + size - 1) / size
}

/// The `i`-th piece of `bytes` cut into pieces of `size` bytes.
pub open spec fn chunk(bytes: Seq<u8>, size: int, i: int) -> Seq<u8> {
    bytes.subrange(
        i * size,
        if (i + 1) * size <= bytes.len() {
            (i + 1) * size
        } else {
            bytes.len() as int
        },
    )
}

/// The pieces of `bytes` cut into pieces of `size` bytes; the last may be shorter.
pub open spec fn chunks(bytes: Seq<u8>, size: int) -> Seq<Seq<u8>> {
    Seq::new(fragment_count(bytes.len() as int, size) as nat, |i: int| chunk(bytes, size, i))
}

/// The fragments of the message `id` with the payload `bytes`, in the order
/// of their indices.
pub open spec fn fragments_of(id: u16, tick: Option<u16>, bytes: Seq<u8>, size: int) -> Seq<
    FragmentView,
> {
    Seq::new(
        fragment_count(bytes.len() as int, size) as nat,
        |i: int|
            FragmentView {
                message_id: id,
                tick,
                fragment_id: i as u8,
                num_fragments: fragment_count(bytes.len() as int, size) as u8,
                bytes: chunk(bytes, size, i),
            },
    )
}

proof fn lemma_count_bounds(len: int, size: int)
    requires
        size > 0,
        len >= 0,
    ensures
        fragment_count(len, size) >= 0,
        len > 0 ==> (fragment_count(len, size) - 1) * size < len,
        len == 0 ==> fragment_count(len, size) == 0,
        len <= fragment_count(len, size) * size,
        len > 0 ==> fragment_count(len, size) >= 1,
{
    let n = fragment_count(len, size);
    vstd::arithmetic::div_mod::lemma_fundamental_div_mod(len + size - 1, size);
    vstd::arithmetic::div_mod::lemma_mod_bound(len + size - 1, size);
    assert(size * n == n * size) by (nonlinear_arith);
    assert((n - 1) * size == n * size - size) by (nonlinear_arith);
    if len > 0 && n <= 0 {
        assert(n * size <= 0) by (nonlinear_arith)
            requires
                n <= 0,
                size > 0,
        ;
    }
    if n < 0 {
        assert(n * size <= -size) by (nonlinear_arith)
            requires
                n <= -1,
                size > 0,
        ;
    }
    if len == 0 && n >= 1 {
        assert(n * size >= size) by (nonlinear_arith)
            requires
                n >= 1,
                size > 0,
        ;
    }
}

proof fn lemma_joined_prefix(bytes: Seq<u8>, size: int, k: int)
    requires
        size > 0,
        0 <= k <= fragment_count(bytes.len() as int, size),
    ensures
        joined(chunks(bytes, size).take(k)) == bytes.subrange(
            0,
            if k * size <= bytes.len() {
                k * size
            } else {
                bytes.len() as int
            },
        ),
    decreases k,
{
    let all = chunks(bytes, size);
    lemma_count_bounds(bytes.len() as int, size);
    if k == 0 {
        assert(all.take(0) =~= Seq::<Seq<u8>>::empty());
        assert(0 * size == 0) by (nonlinear_arith);
        assert(joined(all.take(0)) =~= bytes.subrange(0, 0));
    } else {
        lemma_joined_prefix(bytes, size, k - 1);
        assert(all.take(k).drop_last() =~= all.take(k - 1));
        assert(all.take(k).last() == chunk(bytes, size, k - 1));
        assert((k - 1) * size + size == k * size) by (nonlinear_arith);
        assert((k - 1) * size <= (fragment_count(bytes.len() as int, size) - 1) * size)
            by (nonlinear_arith)
            requires
                k <= fragment_count(bytes.len() as int, size),
                size > 0,
        ;
        let from = (k - 1) * size;
        let to = if k * size <= bytes.len() {
            k * size
        } else {
            bytes.len() as int
        };
        assert(from <= bytes.len());
        assert(bytes.subrange(0, from) + bytes.subrange(from, to) =~= bytes.subrange(0, to));
    }
}

/// Cutting loses nothing: the pieces of a payload, joined in their order,
/// are the payload.
pub proof fn lemma_chunks_join(bytes: Seq<u8>, size: int)
    requires
        size > 0,
    ensures
        joined(chunks(bytes, size)) == bytes,
{
    let n = fragment_count(bytes.len() as int, size);
    lemma_count_bounds(bytes.len() as int, size);
    lemma_joined_prefix(bytes, size, n);
    assert(chunks(bytes, size).take(n) =~= chunks(bytes, size));
    assert(bytes.subrange(0, bytes.len() as int) =~= bytes);
}

/// From sender to receiver. A payload is cut into fragments, and the
/// fragments arrive, in the order of their indices, at a reassembler that
/// holds nothing of the message and has a slot free. Then the reassembler
/// hands out one message: the payload, whole, under the message's id.
pub proof fn lemma_cut_and_reassembled(
    s: FragmentsView,
    id: u16,
    tick: Option<u16>,
    bytes: Seq<u8>,
    size: int,
)
    requires
        s.wf(),
        !s.slots.contains_key(id),
        s.slots.dom().len() < s.capacity,
        size > 0,
        1 <= fragment_count(bytes.len() as int, size) <= 255,
    ensures
        s.feed(fragments_of(id, tick, bytes, size)).yielded == seq![
            SingleView { id: Some(id), tick, bytes },
        ],
        s.feed(fragments_of(id, tick, bytes, size)).state == s,
{
    let n = fragment_count(bytes.len() as int, size);
    let pieces = chunks(bytes, size);
    let order = Seq::new(n as nat, |i: int| i);
    assert(is_arrival_order(order, order, n));
    lemma_reassembly(s, id, tick, pieces, order, order, n);
    lemma_chunks_join(bytes, size);
    let fed = fragments_in_order(id, tick, pieces, order);
    assert(fed =~= fragments_of(id, tick, bytes, size));
    assert(fed.take(n) =~= fed);
}

/// The mathematical values of the fragments `fragments`.
pub open spec fn fragments_view(fragments: Seq<FragmentData>) -> Seq<FragmentView> {
    Seq::new(fragments.len(), |i: int| fragments[i]@)
}

/// Cuts the payload `bytes` of the message `id` into fragments of `size`
/// bytes. A payload that would make more fragments than a message can have
/// is refused.
pub fn split_payload(id: MessageId, tick: Option<Tick>, bytes: &Vec<u8>, size: usize) -> (r: Option<
    Vec<FragmentData>,
>)
    requires
        size > 0,
    ensures
        match r {
            Some(fragments) => fragment_count(bytes@.len() as int, size as int) <= MAX_FRAGMENTS
                && fragments_view(fragments@) == fragments_of(
                id.0,
                crate::message::tick_value(tick),
                bytes@,
                size as int,
            ),
            None => fragment_count(bytes@.len() as int, size as int) > MAX_FRAGMENTS,
        },
{
    let len = bytes.len();
    let whole = len / size;
    let left = len % size;
    proof {
        lemma_count_bounds(len as int, size as int);
        vstd::arithmetic::div_mod::lemma_fundamental_div_mod(len as int, size as int);
        let q = whole as int;
        let n = fragment_count(len as int, size as int);
        assert(size * q == q * size) by (nonlinear_arith);
        if left == 0 {
            if len > 0 {
                assert(n == q) by (nonlinear_arith)
                    requires
                        len == q * size,
                        (n - 1) * size < len,
                        len <= n * size,
                        size > 0,
                ;
            }
        } else {
            assert(n == q + 1) by (nonlinear_arith)
                requires
                    len == q * size + left,
                    0 < left < size,
                    (n - 1) * size < len,
                    len <= n * size,
                    size > 0,
            ;
            assert(q < len) by (nonlinear_arith)
                requires
                    len == q * size + left,
                    0 < left,
                    size > 0,
                    q >= 0,
            ;
        }
    }
    let count: usize = if left == 0 {
        whole
    } else {
        whole + 1
    };
    if count > MAX_FRAGMENTS {
        return None;
    }
    let mut fragments: Vec<FragmentData> = Vec::new();
    let mut i: usize = 0;
    while i < count
        invariant
            size > 0,
            i <= count <= MAX_FRAGMENTS,
            len == bytes.len(),
            count == fragment_count(len as int, size as int),
            fragments.len() == i,
            forall|k: int|
                0 <= k < i ==> (#[trigger] fragments[k])@ == fragments_of(
                    id.0,
                    crate::message::tick_value(tick),
                    bytes@,
                    size as int,
                )[k],
        decreases count - i,
    {
        proof {
            lemma_count_bounds(len as int, size as int);
            assert(i * size <= (count - 1) * size) by (nonlinear_arith)
                requires
                    i <= count - 1,
                    size > 0,
            ;
            assert((i + 1) * size == i * size + size) by (nonlinear_arith);
            assert(i * size < len);
        }
        let from = i * size;
        let to = if len - from >= size {
            from + size
        } else {
            len
        };
        let piece = crate::wire::copy_range(bytes, from, to);
        fragments.push(
            FragmentData {
                message_id: id,
                tick,
                fragment_id: i as u8,
                num_fragments: count as u8,
                bytes: piece,
            },
        );
        i += 1;
    }
    proof {
        assert(fragments_view(fragments@) =~= fragments_of(
            id.0,
            crate::message::tick_value(tick),
            bytes@,
            size as int,
        ));
    }
    Some(fragments)
}

} // verus!
