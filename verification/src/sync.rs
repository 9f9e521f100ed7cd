//! Time: ticks, round-trip estimation, and the alignment of the client's
//! clock with the server's.
//!
//! The client runs ahead of the server by the time that its inputs take to
//! arrive. From the pongs it estimates the round trip and the server's tick,
//! works out the tick at which it should be, and either jumps there, when it
//! is far off, or runs a little faster or slower until it is there.
//!
//! Times are in microseconds.

use vstd::prelude::*;
use crate::wrapping_id::{forward_distance, wrapping_add_spec, Tick};

verus! {

/// By how many percent the clock runs faster or slower while it catches up.
pub const SPEED_ADJUSTMENT_PERCENT: u32 = 5;

/// The tick manager tells the application when the tick has jumped.
#[derive(Clone, Copy, Debug, PartialEq, Eq, Structural)]
pub enum TickEvent {
    /// The tick was set from `old_tick` to `new_tick` in one step.
    Snap { old_tick: Tick, new_tick: Tick },
}

/// The counter of simulation steps.
#[derive(Clone, Copy, Debug, PartialEq, Eq, Structural)]
pub struct TickManager {
    tick: Tick,
}

impl TickManager {
    /// The tick that the counter stands at.
    pub closed spec fn current(&self) -> u16 {
        self.tick.0
    }

    /// A counter at `tick`.
    pub fn new(tick: Tick) -> (r: TickManager)
        ensures
            r.current() == tick.0,
    {
        TickManager { tick }
    }

    /// The tick that the counter stands at.
    pub fn tick(&self) -> (r: Tick)
        ensures
            r.0 == self.current(),
    {
        self.tick
    }

    /// Advances the counter by one step, wrapping at 2^16.
    pub fn increment_tick(&mut self)
        ensures
            final(self).current() == wrapping_add_spec(old(self).current(), 1),
    {
        self.tick = self.tick.next();
    }

    /// Sets the counter to `tick` in one step, and reports the jump.
    pub fn set_tick_to(&mut self, tick: Tick) -> (event: TickEvent)
        ensures
            final(self).current() == tick.0,
            event == (TickEvent::Snap { old_tick: Tick(old(self).current()), new_tick: tick }),
    {
        let old_tick = self.tick;
        self.tick = tick;
        TickEvent::Snap { old_tick, new_tick: tick }
    }
}

/// How far the tick `to` lies ahead of the tick `from`, counted the short way
/// round: from -32768 to 32767.
pub open spec fn tick_diff(from: u16, to: u16) -> int {
    let ahead = forward_distance(from, to);
    if ahead <= 32767 {
        ahead
    } else {
        ahead - 65536
    }
}

/// How far the tick `to` lies ahead of the tick `from`.
pub fn tick_difference(from: Tick, to: Tick) -> (d: i32)
    ensures
        d == tick_diff(from.0, to.0),
{
    let ahead: u16 = to.0.wrapping_sub(from.0);
    if ahead <= 32767 {
        ahead as i32
    } else {
        ahead as i32 - 65536
    }
}

/// The moving average after the sample `sample`: the old value with the
/// weight `weight - 1`, the sample with the weight 1.
pub open spec fn moving_average(old: u64, sample: u64, weight: int) -> int {
    ((weight - 1) * old + sample) / weight
}

/// How far `a` and `b` are apart.
pub open spec fn distance(a: u64, b: u64) -> int {
    if a >= b {
        a - b
    } else {
        b - a
    }
}

/// What the ping manager has learnt from the last pong.
#[derive(Clone, Copy, Debug, PartialEq, Eq, Structural)]
pub struct PongSample {
    /// The server's tick when it sent the pong.
    pub server_tick: Tick,
    /// When the pong arrived.
    pub received_at: u64,
}

/// A ping that is to leave: its number, and the time at which it leaves,
/// which the pong brings back.
#[derive(Clone, Copy, Debug, PartialEq, Eq, Structural)]
pub struct Ping {
    pub id: u16,
    pub sent_at: u64,
}

/// When pings leave.
#[derive(Clone, Copy, Debug, PartialEq, Eq, Structural)]
pub struct PingSchedule {
    /// The time between two pings.
    pub interval: u64,
    /// The number of the next ping.
    pub next_id: u16,
    /// When the last ping left, if one has left.
    pub last_sent: Option<u64>,
}

impl PingSchedule {
    /// A schedule on which no ping has left.
    pub fn new(interval: u64) -> (r: PingSchedule)
        ensures
            r == (PingSchedule { interval, next_id: 0, last_sent: None }),
    {
        PingSchedule { interval, next_id: 0, last_sent: None }
    }

    /// Whether a ping is due at the time `now`: none has left yet, or the
    /// interval has passed since the last one left.
    pub open spec fn is_due(self, now: u64) -> bool {
        match self.last_sent {
            None => true,
            Some(last) => now >= last && now - last >= self.interval,
        }
    }

    /// The ping that leaves at the time `now`, if one is due, and the
    /// schedule after it.
    pub fn maybe_ping(&mut self, now: u64) -> (r: Option<Ping>)
        ensures
            r == if old(self).is_due(now) {
                Some(Ping { id: old(self).next_id, sent_at: now })
            } else {
                None
            },
            *final(self) == if old(self).is_due(now) {
                PingSchedule {
                    next_id: wrapping_add_spec(old(self).next_id, 1),
                    last_sent: Some(now),
                    ..*old(self)
                }
            } else {
                *old(self)
            },
    {
        let due = match self.last_sent {
            None => true,
            Some(last) => now >= last && now - last >= self.interval,
        };
        if due {
            let ping = Ping { id: self.next_id, sent_at: now };
            self.next_id = self.next_id.wrapping_add(1);
            self.last_sent = Some(now);
            Some(ping)
        } else {
            None
        }
    }
}

/// Whether the connection counts as lost at the time `now`: no packet has
/// arrived for `connection_timeout` or longer since the last one arrived at
/// `last_packet_at`.
pub fn connection_lost(last_packet_at: u64, now: u64, connection_timeout: u64) -> (r: bool)
    ensures
        r == (now >= last_packet_at && now - last_packet_at >= connection_timeout),
{
    now >= last_packet_at && now - last_packet_at >= connection_timeout
}

/// The estimates of round trip and jitter.
#[derive(Clone, Copy, Debug, PartialEq, Eq, Structural)]
pub struct PingManager {
    /// The filtered round-trip time.
    pub rtt: u64,
    /// The filtered deviation of the round-trip time.
    pub jitter: u64,
    /// How many pongs have arrived.
    pub pongs: u32,
    /// The last pong.
    pub last_pong: Option<PongSample>,
}

impl PingManager {
    /// The estimates before any pong.
    pub fn new() -> (r: PingManager)
        ensures
            r == (PingManager { rtt: 0, jitter: 0, pongs: 0, last_pong: None }),
    {
        PingManager { rtt: 0, jitter: 0, pongs: 0, last_pong: None }
    }

    /// The estimates after a pong whose ping left at `sent_at` and that
    /// arrived at `now` with the server's tick `server_tick`.
    ///
    /// The first pong sets the round trip to its own. Every later one moves
    /// the round trip an eighth of the way to its own, and the jitter a
    /// quarter of the way to the distance between its round trip and the
    /// estimate. A pong that arrives before its ping left counts as a round
    /// trip of zero.
    pub open spec fn after_pong(self, now: u64, sent_at: u64, server_tick: Tick) -> PingManager {
        let sample = if now >= sent_at {
            (now - sent_at) as u64
        } else {
            0
        };
        PingManager {
            rtt: if self.pongs == 0 {
                sample
            } else {
                moving_average(self.rtt, sample, 8) as u64
            },
            jitter: if self.pongs == 0 {
                0
            } else {
                moving_average(self.jitter, distance(sample, self.rtt) as u64, 4) as u64
            },
            pongs: if self.pongs == u32::MAX {
                u32::MAX
            } else {
                (self.pongs + 1) as u32
            },
            last_pong: Some(PongSample { server_tick, received_at: now }),
        }
    }

    /// How long a reliable message waits for its acknowledgement before it is
    /// sent again: one and a half round trips and the jitter, or the longest
    /// time that can be said where that is longer still.
    pub open spec fn retransmission_delay(self) -> u64 {
        let delay = self.rtt + self.rtt / 2 + self.jitter;
        if delay > u64::MAX {
            u64::MAX
        } else {
            delay as u64
        }
    }

    /// How long a reliable message waits before it is sent again.
    pub fn resend_after(&self) -> (r: u64)
        ensures
            r == self.retransmission_delay(),
    {
        let delay: u128 = self.rtt as u128 + (self.rtt / 2) as u128 + self.jitter as u128;
        if delay > 0xffff_ffff_ffff_ffff {
            u64::MAX
        } else {
            delay as u64
        }
    }

    /// Takes a pong.
    pub fn process_pong(&mut self, now: u64, sent_at: u64, server_tick: Tick)
        ensures
            *final(self) == old(self).after_pong(now, sent_at, server_tick),
    {
        let sample: u64 = if now >= sent_at {
            now - sent_at
        } else {
            0
        };
        if self.pongs == 0 {
            self.rtt = sample;
            self.jitter = 0;
        } else {
            let deviation: u64 = if sample >= self.rtt {
                sample - self.rtt
            } else {
                self.rtt - sample
            };
            let rtt: u128 = (7 * (self.rtt as u128) + sample as u128) / 8;
            let jitter: u128 = (3 * (self.jitter as u128) + deviation as u128) / 4;
            self.rtt = rtt as u64;
            self.jitter = jitter as u64;
        }
        if self.pongs < u32::MAX {
            self.pongs = self.pongs + 1;
        }
        self.last_pong = Some(PongSample { server_tick, received_at: now });
    }
}

/// The estimate follows the samples: after a pong the round-trip estimate
/// lies between the estimate before it and the round trip of the pong.
pub proof fn lemma_estimate_follows_sample(old: u64, sample: u64, weight: int)
    requires
        weight >= 1,
    ensures
        old <= sample ==> old <= moving_average(old, sample, weight) <= sample,
        sample <= old ==> sample <= moving_average(old, sample, weight) <= old,
{
    let total = (weight - 1) * old + sample;
    if old <= sample {
        assert(weight * old <= total <= weight * sample) by (nonlinear_arith)
            requires
                weight >= 1,
                old <= sample,
                total == (weight - 1) * old + sample,
        ;
        vstd::arithmetic::div_mod::lemma_div_is_ordered(weight * old, total, weight);
        vstd::arithmetic::div_mod::lemma_div_is_ordered(total, weight * sample, weight);
        vstd::arithmetic::div_mod::lemma_div_multiples_vanish(old as int, weight);
        vstd::arithmetic::div_mod::lemma_div_multiples_vanish(sample as int, weight);
        assert(weight * old == old * weight && weight * sample == sample * weight) by (nonlinear_arith);
    } else {
        assert(weight * sample <= total <= weight * old) by (nonlinear_arith)
            requires
                weight >= 1,
                sample <= old,
                total == (weight - 1) * old + sample,
        ;
        vstd::arithmetic::div_mod::lemma_div_is_ordered(weight * sample, total, weight);
        vstd::arithmetic::div_mod::lemma_div_is_ordered(total, weight * old, weight);
        vstd::arithmetic::div_mod::lemma_div_multiples_vanish(old as int, weight);
        vstd::arithmetic::div_mod::lemma_div_multiples_vanish(sample as int, weight);
        assert(weight * old == old * weight && weight * sample == sample * weight) by (nonlinear_arith);
    }
}

/// How the client's clock is aligned.
#[derive(Clone, Copy, Debug, PartialEq, Eq, Structural)]
pub struct SyncConfig {
    /// The length of a tick; more than zero.
    pub tick_duration: u64,
    /// How many pongs make an estimate that can be trusted.
    pub pongs_needed: u32,
    /// How far the tick may be off, in ticks, before it is set in one step.
    pub snap_threshold: u16,
    /// How many ticks the inputs are delayed on purpose.
    pub input_delay_ticks: u16,
    /// How many ticks are added to be on the safe side.
    pub safety_margin: u16,
}

/// What the sync manager asks of the clock.
#[derive(Clone, Copy, Debug, PartialEq, Eq, Structural)]
pub enum ClockAdjustment {
    /// The tick is far off: it was set to the target in one step.
    Snap(TickEvent),
    /// The tick is behind: the clock is to run this many percent of its pace.
    SpeedUp(u32),
    /// The tick is ahead: the clock is to run this many percent of its pace.
    SlowDown(u32),
    /// The tick is where it should be: the clock is to run at its pace.
    Hold,
}

/// The number of whole ticks in `time`.
pub open spec fn ticks_in(time: int, tick_duration: u64) -> int {
    time / (tick_duration as int)
}

/// The number of ticks that cover `time`.
pub open spec fn ticks_covering(time: int, tick_duration: u64) -> int {
    (time + tick_duration - 1) / (tick_duration as int)
}

/// The server's tick at the time `now`, as the last pong lets it be estimated.
pub open spec fn server_tick_estimate(pong: PongSample, now: u64, tick_duration: u64) -> u16 {
    let elapsed = if now >= pong.received_at {
        now - pong.received_at
    } else {
        0
    };
    wrapping_add_spec(pong.server_tick.0, ticks_in(elapsed, tick_duration))
}

/// By how many ticks the client is to run ahead of the server: the ticks
/// that cover half a round trip and the jitter, the delay of the inputs, and
/// the safety margin.
pub open spec fn lead_ticks(ping: PingManager, config: SyncConfig) -> int {
    ticks_covering(ping.rtt / 2 + ping.jitter, config.tick_duration) + config.input_delay_ticks
        + config.safety_margin
}

/// The tick at which the client is to be at the time `now`.
pub open spec fn prediction_target(
    ping: PingManager,
    pong: PongSample,
    now: u64,
    config: SyncConfig,
) -> u16 {
    wrapping_add_spec(
        server_tick_estimate(pong, now, config.tick_duration),
        lead_ticks(ping, config),
    )
}

/// By how many ticks the interpolated entities run behind the server: the
/// least delay, and the ticks that cover the jitter as often as the
/// multiplier says.
pub open spec fn interpolation_delay_ticks(
    min_delay_ticks: u16,
    jitter: u64,
    jitter_multiplier: u8,
    tick_duration: u64,
) -> int {
    min_delay_ticks + ticks_covering(jitter * jitter_multiplier, tick_duration)
}

/// The tick at which interpolated entities are shown at the time `now`: the
/// server's tick as estimated, less the interpolation delay.
pub open spec fn interpolation_target(
    ping: PingManager,
    pong: PongSample,
    now: u64,
    min_delay_ticks: u16,
    jitter_multiplier: u8,
    tick_duration: u64,
) -> u16 {
    wrapping_add_spec(
        server_tick_estimate(pong, now, tick_duration),
        -interpolation_delay_ticks(min_delay_ticks, ping.jitter, jitter_multiplier, tick_duration),
    )
}

/// The tick at which interpolated entities are shown at the time `now`.
pub fn interpolation_tick(
    ping: &PingManager,
    pong: PongSample,
    now: u64,
    min_delay_ticks: u16,
    jitter_multiplier: u8,
    tick_duration: u64,
) -> (r: Tick)
    requires
        tick_duration > 0,
    ensures
        r.0 == interpolation_target(
            *ping,
            pong,
            now,
            min_delay_ticks,
            jitter_multiplier,
            tick_duration,
        ),
{
    let duration = tick_duration as u128;
    let elapsed: u64 = if now >= pong.received_at {
        now - pong.received_at
    } else {
        0
    };
    let server: u128 = (pong.server_tick.0 as u128 + (elapsed as u128) / duration) % 65536;
    proof {
        assert(0 <= (ping.jitter as int) * (jitter_multiplier as int) <= 0xffff_ffff_ffff_ffff
            * 255) by (nonlinear_arith)
            requires
                0 <= ping.jitter as int <= 0xffff_ffff_ffff_ffff,
                0 <= jitter_multiplier as int <= 255,
        ;
    }
    let cover: u128 = (ping.jitter as u128) * (jitter_multiplier as u128);
    let delay: u128 = min_delay_ticks as u128 + (cover + duration - 1) / duration;
    let behind: u128 = delay % 65536;
    let target: u128 = (server + 65536 - behind) % 65536;
    proof {
        let d = interpolation_delay_ticks(
            min_delay_ticks,
            ping.jitter,
            jitter_multiplier,
            tick_duration,
        );
        assert(delay == d);
        assert(server == server_tick_estimate(pong, now, tick_duration));
        assert((server - d) % 65536 == (server + 65536 - (d % 65536)) % 65536) by {
            vstd::arithmetic::div_mod::lemma_fundamental_div_mod(d, 65536);
            let q = d / 65536;
            assert(server - d == (server + 65536 - d % 65536) + (-q - 1) * 65536) by (nonlinear_arith)
                requires
                    d == 65536 * q + d % 65536,
            ;
            vstd::arithmetic::div_mod::lemma_mod_multiples_vanish(
                -q - 1,
                server + 65536 - d % 65536,
                65536,
            );
        }
    }
    Tick(target as u16)
}

/// What the clock is asked for when the tick is at `local` and is to be at
/// `target`: a jump where the two are more than the threshold apart, else a
/// faster or slower pace, or nothing.
pub open spec fn adjustment_for(local: u16, target: u16, snap_threshold: u16) -> ClockAdjustment {
    let off = tick_diff(local, target);
    if off > snap_threshold || -off > snap_threshold {
        ClockAdjustment::Snap(TickEvent::Snap { old_tick: Tick(local), new_tick: Tick(target) })
    } else if off > 0 {
        ClockAdjustment::SpeedUp((100 + SPEED_ADJUSTMENT_PERCENT) as u32)
    } else if off < 0 {
        ClockAdjustment::SlowDown((100 - SPEED_ADJUSTMENT_PERCENT) as u32)
    } else {
        ClockAdjustment::Hold
    }
}

/// Aligns the client's clock with the server's.
#[derive(Clone, Copy, Debug, PartialEq, Eq, Structural)]
pub struct SyncManager {
    pub config: SyncConfig,
    /// Whether enough pongs have arrived for the estimates to be trusted.
    pub synced: bool,
}

impl SyncManager {
    /// A sync manager that is not synced yet.
    pub fn new(config: SyncConfig) -> (r: SyncManager)
        ensures
            r == (SyncManager { config, synced: false }),
    {
        SyncManager { config, synced: false }
    }

    /// Whether enough pongs have arrived for the estimates to be trusted.
    pub fn is_synced(&self) -> (r: bool)
        ensures
            r == self.synced,
    {
        self.synced
    }

    /// Forgets that the clock was aligned, as after the connection was lost.
    pub fn reset(&mut self)
        ensures
            *final(self) == (SyncManager { synced: false, ..*old(self) }),
    {
        self.synced = false;
    }

    /// The tick at which the client is to be at the time `now`.
    pub fn target(&self, ping: &PingManager, pong: PongSample, now: u64) -> (r: Tick)
        requires
            self.config.tick_duration > 0,
        ensures
            r.0 == prediction_target(*ping, pong, now, self.config),
    {
        let duration = self.config.tick_duration as u128;
        let elapsed: u64 = if now >= pong.received_at {
            now - pong.received_at
        } else {
            0
        };
        let elapsed_ticks: u128 = (elapsed as u128) / duration;
        let cover: u128 = (ping.rtt / 2) as u128 + ping.jitter as u128;
        let lead: u128 = (cover + duration - 1) / duration + self.config.input_delay_ticks as u128
            + self.config.safety_margin as u128;
        let server: u128 = (pong.server_tick.0 as u128 + elapsed_ticks) % 65536;
        let target: u128 = (server + lead) % 65536;
        proof {
            let s = server_tick_estimate(pong, now, self.config.tick_duration);
            assert(s == server);
            assert(lead == lead_ticks(*ping, self.config));
        }
        Tick(target as u16)
    }

    /// Brings the tick in line with the server.
    ///
    /// Until a pong has arrived there is nothing to go by, and nothing
    /// happens. Once as many pongs have arrived as are needed, the manager
    /// is synced. From then on the tick is compared with the target: where
    /// it is more than the threshold off, it is set to the target in one step;
    /// else the clock is asked to run faster or slower, or to hold its pace.
    pub fn update(&mut self, ticks: &mut TickManager, ping: &PingManager, now: u64) -> (r: Option<
        ClockAdjustment,
    >)
        requires
            old(self).config.tick_duration > 0,
        ensures
            final(self).config == old(self).config,
            final(self).synced == (old(self).synced || (ping.last_pong is Some && ping.pongs
                >= old(self).config.pongs_needed)),
            match ping.last_pong {
                Some(pong) if final(self).synced => {
                    let target = prediction_target(*ping, pong, now, old(self).config);
                    let asked = adjustment_for(
                        old(ticks).current(),
                        target,
                        old(self).config.snap_threshold,
                    );
                    &&& r == Some(asked)
                    &&& final(ticks).current() == if asked is Snap {
                        target
                    } else {
                        old(ticks).current()
                    }
                },
                _ => r is None && final(ticks).current() == old(ticks).current(),
            },
    {
        let pong = match ping.last_pong {
            Some(pong) => pong,
            None => {
                return None;
            },
        };
        if !self.synced && ping.pongs >= self.config.pongs_needed {
            self.synced = true;
        }
        if !self.synced {
            return None;
        }
        let target = self.target(ping, pong, now);
        let local = ticks.tick();
        let off = tick_difference(local, target);
        let threshold = self.config.snap_threshold as i32;
        if off > threshold || -off > threshold {
            let event = ticks.set_tick_to(target);
            Some(ClockAdjustment::Snap(event))
        } else if off > 0 {
            Some(ClockAdjustment::SpeedUp(100 + SPEED_ADJUSTMENT_PERCENT))
        } else if off < 0 {
            Some(ClockAdjustment::SlowDown(100 - SPEED_ADJUSTMENT_PERCENT))
        } else {
            Some(ClockAdjustment::Hold)
        }
    }
}

/// After the clock was brought in line, the tick is within the threshold of
/// the target: a jump puts it on the target, and where there is no jump it
/// was within the threshold before.
pub proof fn lemma_tick_within_threshold(local: u16, target: u16, snap_threshold: u16)
    ensures
        ({
            let after = if adjustment_for(local, target, snap_threshold) is Snap {
                target
            } else {
                local
            };
            -(snap_threshold as int) <= tick_diff(after, target) <= snap_threshold
        }),
{
}

/// The clock is asked to run faster only if the tick is behind the target,
/// and slower only if it is ahead; never by more than five percent.
pub proof fn lemma_pace_within_five_percent(local: u16, target: u16, snap_threshold: u16)
    ensures
        match adjustment_for(local, target, snap_threshold) {
            ClockAdjustment::SpeedUp(pace) => pace == 105 && 0 < tick_diff(local, target)
                <= snap_threshold,
            ClockAdjustment::SlowDown(pace) => pace == 95 && -(snap_threshold as int) <= tick_diff(
                local,
                target,
            ) < 0,
            ClockAdjustment::Hold => local == target,
            ClockAdjustment::Snap(_) => true,
        },
{
}

} // verus!
