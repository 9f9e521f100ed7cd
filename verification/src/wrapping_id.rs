//! 16-bit wrapping identifiers and their modular order.
//!
//! Message ids, packet ids and ticks all count modulo 2^16. Two identifiers are
//! compared by how far one lies ahead of the other on the 16-bit circle: `a` is
//! older than `b` when `b` is between 1 and 32768 steps ahead of `a`.

use vstd::prelude::*;

verus! {

/// Distance from `a` forward to `b` on the 16-bit circle, in `0..65536`.
pub open spec fn forward_distance(a: u16, b: u16) -> int {
    (b as int - a as int) % 65536
}

/// Modular "older than": `b` is between 1 and 32768 steps ahead of `a`.
pub open spec fn wrapping_lt(a: u16, b: u16) -> bool {
    0 < forward_distance(a, b) <= 32768
}

/// The identifier `n` steps after `a`, wrapping at 2^16.
pub open spec fn wrapping_add_spec(a: u16, n: int) -> u16 {
    ((a as int + n) % 65536) as u16
}

/// Two identifiers are equal, or one of them is older than the other.
pub proof fn lemma_wrapping_trichotomy(a: u16, b: u16)
    ensures
        a == b || wrapping_lt(a, b) || wrapping_lt(b, a),
        a == b ==> !wrapping_lt(a, b),
        wrapping_lt(a, b) && wrapping_lt(b, a) <==> forward_distance(a, b) == 32768,
{
}

/// An identifier is older than each of the 32768 identifiers that follow it.
pub proof fn lemma_wrapping_add_is_newer(a: u16, n: int)
    requires
        0 < n <= 32768,
    ensures
        wrapping_lt(a, wrapping_add_spec(a, n)),
        forward_distance(a, wrapping_add_spec(a, n)) == n,
{
}

/// Stepping forward `m` times and then `n` times is stepping forward `m + n` times.
pub proof fn lemma_wrapping_add_add(a: u16, m: int, n: int)
    requires
        0 <= m,
        0 <= n,
    ensures
        wrapping_add_spec(wrapping_add_spec(a, m), n) == wrapping_add_spec(a, m + n),
        wrapping_add_spec(a, 0) == a,
{
    let x = a as int + m;
    assert(((x % 65536) + n) % 65536 == (x + n) % 65536) by {
        vstd::arithmetic::div_mod::lemma_add_mod_noop(x, n, 65536);
        vstd::arithmetic::div_mod::lemma_add_mod_noop(x % 65536, n, 65536);
        vstd::arithmetic::div_mod::lemma_mod_twice(x, 65536);
    }
}

/// Identifier of a message within one channel and direction.
#[derive(Clone, Copy, Debug, PartialEq, Eq, Hash, Structural)]
pub struct MessageId(pub u16);

/// Identifier of a packet within one peer and direction.
#[derive(Clone, Copy, Debug, PartialEq, Eq, Hash, Structural)]
pub struct PacketId(pub u16);

/// Counter of fixed simulation steps.
#[derive(Clone, Copy, Debug, PartialEq, Eq, Hash, Structural)]
pub struct Tick(pub u16);

/// Whether `a` is older than `b` in the modular order.
pub fn is_older(a: u16, b: u16) -> (r: bool)
    ensures
        r == wrapping_lt(a, b),
{
    let d: u16 = b.wrapping_sub(a);
    d != 0 && d <= 32768
}

impl MessageId {
    /// Whether this id is older than `other`.
    pub fn is_before(self, other: MessageId) -> (r: bool)
        ensures
            r == wrapping_lt(self.0, other.0),
    {
        is_older(self.0, other.0)
    }

    /// Whether this id is newer than `other`.
    pub fn is_after(self, other: MessageId) -> (r: bool)
        ensures
            r == wrapping_lt(other.0, self.0),
    {
        is_older(other.0, self.0)
    }

    /// The id that follows this one.
    pub fn next(self) -> (r: MessageId)
        ensures
            r.0 == wrapping_add_spec(self.0, 1),
    {
        MessageId(self.0.wrapping_add(1))
    }
}

impl PacketId {
    /// Whether this id is older than `other`.
    pub fn is_before(self, other: PacketId) -> (r: bool)
        ensures
            r == wrapping_lt(self.0, other.0),
    {
        is_older(self.0, other.0)
    }

    /// The id that follows this one.
    pub fn next(self) -> (r: PacketId)
        ensures
            r.0 == wrapping_add_spec(self.0, 1),
    {
        PacketId(self.0.wrapping_add(1))
    }
}

impl Tick {
    /// Whether this tick is older than `other`.
    pub fn is_before(self, other: Tick) -> (r: bool)
        ensures
            r == wrapping_lt(self.0, other.0),
    {
        is_older(self.0, other.0)
    }

    /// The tick that follows this one.
    pub fn next(self) -> (r: Tick)
        ensures
            r.0 == wrapping_add_spec(self.0, 1),
    {
        Tick(self.0.wrapping_add(1))
    }
}

} // verus!
