//! The packet assembler: which messages travel together in one packet.
//!
//! The messages of a channel are placed into the current packet, in their
//! order, until the next one would exceed the packet's budget; then a new
//! packet is started. A fragment always travels alone.

use vstd::prelude::*;
use crate::message::{MessageContainer, MessageView};
use crate::packet::messages_view;

verus! {

/// Bytes that a message takes in a packet besides its payload, at most: flags,
/// length, id, tick, and the fragment's index and count.
pub const MESSAGE_OVERHEAD: usize = 12;

/// Size of the largest packet, header and all, where the transport names none.
pub const DEFAULT_MTU: usize = 1200;

/// Bytes that header and block prefix take in a packet, at most.
pub const PACKET_OVERHEAD: usize = 19;

/// The payload of a message.
pub open spec fn payload(m: MessageView) -> Seq<u8> {
    match m {
        MessageView::Single(data) => data.bytes,
        MessageView::Fragment(data) => data.bytes,
    }
}

/// The room that the message `m` takes in a packet.
pub open spec fn message_cost(m: MessageView) -> int {
    payload(m).len() + MESSAGE_OVERHEAD
}

/// The room that the messages `group` take in a packet.
pub open spec fn group_cost(group: Seq<MessageView>) -> int
    decreases group.len(),
{
    if group.len() == 0 {
        0
    } else {
        group_cost(group.drop_last()) + message_cost(group.last())
    }
}

/// Whether the message `m` joins the packet that holds `group`: both are
/// whole messages, and together they stay within the budget.
pub open spec fn joins(group: Seq<MessageView>, m: MessageView, budget: int) -> bool {
    &&& group.len() > 0
    &&& group.last() is Single
    &&& m is Single
    &&& group_cost(group) + message_cost(m) <= budget
}

/// The packets that the messages `messages` make, each given as the messages
/// that it holds.
pub open spec fn pack(messages: Seq<MessageView>, budget: int) -> Seq<Seq<MessageView>>
    decreases messages.len(),
{
    if messages.len() == 0 {
        Seq::empty()
    } else {
        let before = pack(messages.drop_last(), budget);
        if before.len() > 0 && joins(before.last(), messages.last(), budget) {
            before.drop_last().push(before.last().push(messages.last()))
        } else {
            before.push(seq![messages.last()])
        }
    }
}

/// The messages of the packets `groups`, in their order.
pub open spec fn unpacked(groups: Seq<Seq<MessageView>>) -> Seq<MessageView>
    decreases groups.len(),
{
    if groups.len() == 0 {
        Seq::empty()
    } else {
        unpacked(groups.drop_last()) + groups.last()
    }
}

/// What the assembler keeps. Every message travels, once, in the order of
/// the queue. No packet is empty. A fragment is alone in its packet. A packet
/// of several messages stays within the budget; and a packet was closed only
/// because the message after it would not have fitted.
pub proof fn lemma_pack(messages: Seq<MessageView>, budget: int)
    ensures
        unpacked(pack(messages, budget)) == messages,
        forall|g: int|
            0 <= g < pack(messages, budget).len() ==> {
                let group = #[trigger] pack(messages, budget)[g];
                &&& group.len() > 0
                &&& group.len() > 1 ==> group_cost(group) <= budget
                &&& forall|k: int|
                    0 <= k < group.len() && (#[trigger] group[k]) is Fragment ==> group.len() == 1
            },
        forall|g: int|
            0 <= g < pack(messages, budget).len() - 1 ==> !joins(
                #[trigger] pack(messages, budget)[g],
                pack(messages, budget)[g + 1][0],
                budget,
            ),
    decreases messages.len(),
{
    let groups = pack(messages, budget);
    if messages.len() > 0 {
        let m = messages.last();
        let front = messages.drop_last();
        lemma_pack(front, budget);
        let before = pack(front, budget);
        assert(messages =~= front.push(m));
        if before.len() > 0 && joins(before.last(), m, budget) {
            let grown = before.last().push(m);
            assert(groups.drop_last() =~= before.drop_last());
            assert(groups.last() == grown);
            assert(unpacked(before) == unpacked(before.drop_last()) + before.last());
            assert(unpacked(groups) =~= messages);
            assert(grown.drop_last() =~= before.last());
            assert forall|g: int| 0 <= g < groups.len() implies {
                let group = #[trigger] groups[g];
                &&& group.len() > 0
                &&& group.len() > 1 ==> group_cost(group) <= budget
                &&& forall|k: int|
                    0 <= k < group.len() && (#[trigger] group[k]) is Fragment ==> group.len() == 1
            } by {
                if g < groups.len() - 1 {
                    assert(groups[g] == before[g]);
                } else {
                    let old_group = before[before.len() - 1];
                    assert forall|k: int| 0 <= k < grown.len() implies !((
                    #[trigger] grown[k]) is Fragment) by {
                        if k < old_group.len() {
                            assert(grown[k] == old_group[k]);
                            if old_group.len() > 1 {
                                assert(old_group[k] is Fragment ==> old_group.len() == 1);
                            }
                        }
                    }
                }
            }
            assert forall|g: int| 0 <= g < groups.len() - 1 implies !joins(
                #[trigger] groups[g],
                groups[g + 1][0],
                budget,
            ) by {
                assert(groups[g] == before[g]);
                if g + 1 < groups.len() - 1 {
                    assert(groups[g + 1] == before[g + 1]);
                } else {
                    assert(groups[g + 1][0] == before[g + 1][0]);
                }
            }
        } else {
            assert(groups.drop_last() =~= before);
            assert(unpacked(groups) =~= messages);
            assert(seq![m].drop_last() =~= Seq::<MessageView>::empty());
            assert forall|g: int| 0 <= g < groups.len() implies {
                let group = #[trigger] groups[g];
                &&& group.len() > 0
                &&& group.len() > 1 ==> group_cost(group) <= budget
                &&& forall|k: int|
                    0 <= k < group.len() && (#[trigger] group[k]) is Fragment ==> group.len() == 1
            } by {
                if g < before.len() {
                    assert(groups[g] == before[g]);
                }
            }
            assert forall|g: int| 0 <= g < groups.len() - 1 implies !joins(
                #[trigger] groups[g],
                groups[g + 1][0],
                budget,
            ) by {
                assert(groups[g] == before[g]);
                if g + 1 < before.len() {
                    assert(groups[g + 1] == before[g + 1]);
                }
            }
        }
    }
}

/// The mathematical values of the packets `groups`.
pub open spec fn groups_view(groups: Seq<Vec<MessageContainer>>) -> Seq<Seq<MessageView>> {
    Seq::new(groups.len(), |i: int| messages_view(groups[i]@))
}

fn payload_len(message: &MessageContainer) -> (n: usize)
    ensures
        n == payload(message@).len(),
{
    match message {
        MessageContainer::Single(data) => data.bytes.len(),
        MessageContainer::Fragment(data) => data.bytes.len(),
    }
}

fn is_single(message: &MessageContainer) -> (r: bool)
    ensures
        r == (message@ is Single),
{
    match message {
        MessageContainer::Single(_) => true,
        MessageContainer::Fragment(_) => false,
    }
}

/// Sorts the messages `messages` into packets of the budget `budget`.
pub fn pack_messages(messages: Vec<MessageContainer>, budget: usize) -> (r: Vec<
    Vec<MessageContainer>,
>)
    ensures
        groups_view(r@) == pack(messages_view(messages@), budget as int),
{
    let ghost all = messages_view(messages@);
    let mut rest = messages;
    let mut groups: Vec<Vec<MessageContainer>> = Vec::new();
    // the room that the last packet takes, as long as it is within the budget
    let mut room: Option<usize> = None;
    let mut open_for_more = false;
    let mut i: usize = 0;
    proof {
        assert(all.take(0) =~= Seq::empty());
        assert(groups_view(groups@) =~= pack(all.take(0), budget as int));
    }
    while i < rest.len()
        invariant
            all == messages_view(messages@),
            i <= rest.len(),
            rest.len() == all.len(),
            forall|k: int| i <= k < rest.len() ==> (#[trigger] rest[k])@ == all[k],
            groups_view(groups@) == pack(all.take(i as int), budget as int),
            groups.len() > 0 ==> groups_view(groups@).last().len() > 0,
            groups.len() > 0 ==> open_for_more == (groups_view(groups@).last().last() is Single),
            groups.len() > 0 ==> match room {
                Some(taken) => taken == group_cost(groups_view(groups@).last()) && taken <= budget,
                None => group_cost(groups_view(groups@).last()) > budget,
            },
        decreases rest.len() - i,
    {
        let mut message = MessageContainer::new(Vec::new());
        rest.set_and_swap(i, &mut message);
        let ghost before = groups_view(groups@);
        proof {
            assert(message@ == all[i as int]);
            assert(all.take(i as int + 1).drop_last() =~= all.take(i as int));
            assert(all.take(i as int + 1).last() == all[i as int]);
        }
        let cost = payload_len(&message).checked_add(MESSAGE_OVERHEAD);
        let single = is_single(&message);
        let mut joined: Option<usize> = None;
        if groups.len() > 0 && open_for_more && single {
            if let Some(taken) = room {
                if let Some(cost) = cost {
                    if let Some(total) = taken.checked_add(cost) {
                        if total <= budget {
                            joined = Some(total);
                        }
                    }
                }
            }
        }
        match joined {
            Some(total) => {
                let last = groups.len() - 1;
                let ghost groups_before = groups@;
                let group = &mut groups[last];
                group.push(message);
                room = Some(total);
                proof {
                    assert(joins(before.last(), all[i as int], budget as int));
                    let grown = before.last().push(all[i as int]);
                    assert forall|k: int| 0 <= k < groups.len() && k != last implies groups@[k]
                        == groups_before[k] by {}
                    assert(messages_view(groups@[last as int]@) =~= grown);
                    assert(groups_view(groups@) =~= before.drop_last().push(grown));
                    assert(grown.drop_last() =~= before.last());
                }
            },
            None => {
                proof {
                    assert(!(before.len() > 0 && joins(before.last(), all[i as int], budget as int)));
                }
                let mut group: Vec<MessageContainer> = Vec::new();
                group.push(message);
                proof {
                    assert(messages_view(group@) =~= seq![all[i as int]]);
                    assert(seq![all[i as int]].drop_last() =~= Seq::<MessageView>::empty());
                    assert(group_cost(seq![all[i as int]]) == message_cost(all[i as int])) by {
                        reveal_with_fuel(group_cost, 2);
                    }
                }
                groups.push(group);
                room = match cost {
                    Some(cost) => if cost <= budget {
                        Some(cost)
                    } else {
                        None
                    },
                    None => None,
                };
                open_for_more = single;
                proof {
                    assert(groups_view(groups@) =~= before.push(seq![all[i as int]]));
                }
            },
        }
        i += 1;
    }
    proof {
        assert(all.take(i as int) =~= all);
    }
    groups
}

} // verus!
