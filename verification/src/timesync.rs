//! Telling the time over the network.
use vstd::prelude::*;
use vstd::string::*;
use crate::codec;
use crate::discovery;
use crate::error::{TelemetryError, TelemetryResult};
use crate::meta::{
    DataEndpoint, DataType, EP_TIMESYNC, TY_TIMESYNC_ANNOUNCE, TY_TIMESYNC_REQUEST,
    TY_TIMESYNC_RESPONSE,
};
use crate::packet;
use crate::packet::Packet;
use crate::registry::Registry;

verus! {

/// A question for the time.
#[derive(Debug, Clone, Copy, PartialEq, Eq, Structural)]
pub struct TimeSyncRequest {
    pub seq: u64,
    /// When it was asked, by the clock of the board that asks.
    pub t1_ms: u64,
}

/// An answer to a question for the time.
#[derive(Debug, Clone, Copy, PartialEq, Eq, Structural)]
pub struct TimeSyncResponse {
    pub seq: u64,
    pub t1_ms: u64,
    /// When the question came, by the clock of the board that answers.
    pub t2_ms: u64,
    /// When the answer went out, by the clock of the board that answers.
    pub t3_ms: u64,
}

/// An offer to tell the time.
#[derive(Debug, Clone, Copy, PartialEq, Eq, Structural)]
pub struct TimeSyncAnnounce {
    /// The lower, the better.
    pub priority: u64,
    pub time_ms: u64,
}

/// How far two clocks are apart.
#[derive(Debug, Clone, Copy, PartialEq, Eq, Structural)]
pub struct TimeSyncSample {
    /// What has to be added to the local clock.
    pub offset_ms: i64,
    /// How long question and answer were on their way.
    pub delay_ms: u64,
}

pub open spec fn two(a: u64, b: u64) -> Seq<u8> {
    codec::le8(a) + codec::le8(b)
}

pub open spec fn four(a: u64, b: u64, c: u64, d: u64) -> Seq<u8> {
    two(a, b) + two(c, d)
}

pub open spec fn read_two(s: Seq<u8>) -> Option<((u64, u64), Seq<u8>)> {
    match codec::read_le8(s) {
        Some((a, s1)) => match codec::read_le8(s1) {
            Some((b, s2)) => Some(((a, b), s2)),
            None => None,
        },
        None => None,
    }
}

pub open spec fn read_four(s: Seq<u8>) -> Option<((u64, u64, u64, u64), Seq<u8>)> {
    match read_two(s) {
        Some((x, s1)) => match read_two(s1) {
            Some((y, s2)) => Some(((x.0, x.1, y.0, y.1), s2)),
            None => None,
        },
        None => None,
    }
}

/// Times are read as they were written.
pub proof fn lemma_times_roundtrip(a: u64, b: u64, c: u64, d: u64, rest: Seq<u8>)
    ensures
        read_two(two(a, b) + rest) == Some(((a, b), rest)),
        read_four(four(a, b, c, d) + rest) == Some(((a, b, c, d), rest)),
{
    lemma_two_roundtrip(a, b, rest);
    lemma_two_roundtrip(c, d, rest);
    lemma_two_roundtrip(a, b, two(c, d) + rest);
    vstd::seq_lib::lemma_concat_associative(two(a, b), two(c, d), rest);
}

proof fn lemma_two_roundtrip(a: u64, b: u64, rest: Seq<u8>)
    ensures
        read_two(two(a, b) + rest) == Some(((a, b), rest)),
{
    vstd::seq_lib::lemma_concat_associative(codec::le8(a), codec::le8(b), rest);
    codec::lemma_le_roundtrip(0, 0, a, codec::le8(b) + rest);
    codec::lemma_le_roundtrip(0, 0, b, rest);
}

fn read_two_at(buf: &[u8], pos: usize) -> (r: Option<((u64, u64), usize)>)
    requires
        pos <= buf@.len(),
    ensures
        codec::reads(r, read_two(buf@.skip(pos as int)), buf@, pos),
{
    match codec::read_le8_at(buf, pos) {
        Some((a, p)) => match codec::read_le8_at(buf, p) {
            Some((b, end)) => Some(((a, b), end)),
            None => None,
        },
        None => None,
    }
}

fn time_packet(
    reg: &mut Registry,
    ty: DataType,
    sender: &str,
    timestamp: u64,
    payload: Vec<u8>,
) -> (r: TelemetryResult<Packet>)
    ensures
        packet::packet_made(
            *old(reg),
            *final(reg),
            ty,
            seq![EP_TIMESYNC],
            sender@,
            timestamp,
            payload@,
            r,
        ),
{
    let mut endpoints: Vec<DataEndpoint> = Vec::new();
    endpoints.push(EP_TIMESYNC);
    assert(endpoints@ =~= seq![EP_TIMESYNC]);
    Packet::new(reg, ty, &endpoints, sender, timestamp, payload)
}

/// Asks for the time.
pub fn build_timesync_request(reg: &mut Registry, seq: u64, t1_ms: u64) -> (r: TelemetryResult<
    Packet,
>)
    ensures
        packet::packet_made(
            *old(reg),
            *final(reg),
            TY_TIMESYNC_REQUEST,
            seq![EP_TIMESYNC],
            packet::device_name(),
            t1_ms,
            two(seq, t1_ms),
            r,
        ),
{
    let mut payload: Vec<u8> = Vec::new();
    codec::write_le8(&mut payload, seq);
    codec::write_le8(&mut payload, t1_ms);
    assert(payload@ =~= two(seq, t1_ms));
    time_packet(reg, TY_TIMESYNC_REQUEST, packet::device_identifier(), t1_ms, payload)
}

/// The question in a packet.
pub fn decode_timesync_request(p: &Packet) -> (r: TelemetryResult<TimeSyncRequest>)
    ensures
        discovery::decodes(
            p@,
            TY_TIMESYNC_REQUEST,
            discovery::whole(read_two(p@.payload)),
            |y: TimeSyncRequest, x: (u64, u64)| y == (TimeSyncRequest { seq: x.0, t1_ms: x.1 }),
            r,
        ),
{
    if p.data_type() != TY_TIMESYNC_REQUEST {
        return Err(TelemetryError::InvalidType);
    }
    assert(p@.payload.skip(0) =~= p@.payload);
    match read_two_at(p.payload(), 0) {
        Some(((seq, t1_ms), end)) => if end == p.payload().len() {
            Ok(TimeSyncRequest { seq, t1_ms })
        } else {
            Err(TelemetryError::Unpack("timesync payload"))
        },
        None => Err(TelemetryError::Unpack("timesync payload")),
    }
}

/// Answers a question for the time.
pub fn build_timesync_response(
    reg: &mut Registry,
    seq: u64,
    t1_ms: u64,
    t2_ms: u64,
    t3_ms: u64,
) -> (r: TelemetryResult<Packet>)
    ensures
        packet::packet_made(
            *old(reg),
            *final(reg),
            TY_TIMESYNC_RESPONSE,
            seq![EP_TIMESYNC],
            packet::device_name(),
            t3_ms,
            four(seq, t1_ms, t2_ms, t3_ms),
            r,
        ),
{
    let mut payload: Vec<u8> = Vec::new();
    codec::write_le8(&mut payload, seq);
    codec::write_le8(&mut payload, t1_ms);
    codec::write_le8(&mut payload, t2_ms);
    codec::write_le8(&mut payload, t3_ms);
    assert(payload@ =~= four(seq, t1_ms, t2_ms, t3_ms));
    time_packet(reg, TY_TIMESYNC_RESPONSE, packet::device_identifier(), t3_ms, payload)
}

/// The answer in a packet.
pub fn decode_timesync_response(p: &Packet) -> (r: TelemetryResult<TimeSyncResponse>)
    ensures
        discovery::decodes(
            p@,
            TY_TIMESYNC_RESPONSE,
            discovery::whole(read_four(p@.payload)),
            |y: TimeSyncResponse, x: (u64, u64, u64, u64)|
                y == (TimeSyncResponse { seq: x.0, t1_ms: x.1, t2_ms: x.2, t3_ms: x.3 }),
            r,
        ),
{
    if p.data_type() != TY_TIMESYNC_RESPONSE {
        return Err(TelemetryError::InvalidType);
    }
    assert(p@.payload.skip(0) =~= p@.payload);
    match read_two_at(p.payload(), 0) {
        Some(((seq, t1_ms), middle)) => match read_two_at(p.payload(), middle) {
            Some(((t2_ms, t3_ms), end)) => if end == p.payload().len() {
                Ok(TimeSyncResponse { seq, t1_ms, t2_ms, t3_ms })
            } else {
                Err(TelemetryError::Unpack("timesync payload"))
            },
            None => Err(TelemetryError::Unpack("timesync payload")),
        },
        None => Err(TelemetryError::Unpack("timesync payload")),
    }
}

/// Offers to tell the time.
pub fn build_timesync_announce_with_sender(
    reg: &mut Registry,
    sender: &str,
    priority: u64,
    time_ms: u64,
) -> (r: TelemetryResult<Packet>)
    ensures
        packet::packet_made(
            *old(reg),
            *final(reg),
            TY_TIMESYNC_ANNOUNCE,
            seq![EP_TIMESYNC],
            sender@,
            time_ms,
            two(priority, time_ms),
            r,
        ),
{
    let mut payload: Vec<u8> = Vec::new();
    codec::write_le8(&mut payload, priority);
    codec::write_le8(&mut payload, time_ms);
    assert(payload@ =~= two(priority, time_ms));
    time_packet(reg, TY_TIMESYNC_ANNOUNCE, sender, time_ms, payload)
}

/// The offer in a packet.
pub fn decode_timesync_announce(p: &Packet) -> (r: TelemetryResult<TimeSyncAnnounce>)
    ensures
        discovery::decodes(
            p@,
            TY_TIMESYNC_ANNOUNCE,
            discovery::whole(read_two(p@.payload)),
            |y: TimeSyncAnnounce, x: (u64, u64)|
                y == (TimeSyncAnnounce { priority: x.0, time_ms: x.1 }),
            r,
        ),
{
    if p.data_type() != TY_TIMESYNC_ANNOUNCE {
        return Err(TelemetryError::InvalidType);
    }
    assert(p@.payload.skip(0) =~= p@.payload);
    match read_two_at(p.payload(), 0) {
        Some(((priority, time_ms), end)) => if end == p.payload().len() {
            Ok(TimeSyncAnnounce { priority, time_ms })
        } else {
            Err(TelemetryError::Unpack("timesync payload"))
        },
        None => Err(TelemetryError::Unpack("timesync payload")),
    }
}

/// Half of `x`, rounded towards zero.
pub open spec fn half(x: int) -> int {
    if x >= 0 {
        x / 2
    } else {
        -((-x) / 2)
    }
}

/// `x`, moved into the range of 64-bit integers.
pub open spec fn clamp_i64(x: int) -> int {
    if x > i64::MAX {
        i64::MAX as int
    } else if x < i64::MIN {
        i64::MIN as int
    } else {
        x
    }
}

/// How far the other clock is ahead, on average over both ways.
pub open spec fn clock_offset(t1: u64, t2: u64, t3: u64, t4: u64) -> int {
    clamp_i64(half((t2 - t1) + (t3 - t4)))
}

/// How long question and answer were on their way, without the time that the answer took.
pub open spec fn path_delay(t1: u64, t2: u64, t3: u64, t4: u64) -> int {
    let d = (t4 - t1) - (t3 - t2);
    if d < 0 {
        0
    } else if d > u64::MAX {
        u64::MAX as int
    } else {
        d
    }
}

/// How far two clocks are apart, from the four times of a question and its answer.
pub fn compute_offset_delay(t1: u64, t2: u64, t3: u64, t4: u64) -> (s: TimeSyncSample)
    ensures
        s.offset_ms == clock_offset(t1, t2, t3, t4),
        s.delay_ms == path_delay(t1, t2, t3, t4),
{
    let a: i128 = t2 as i128 - t1 as i128 + (t3 as i128 - t4 as i128);
    let h: i128 = if a >= 0 {
        (a as u128 / 2) as i128
    } else {
        -(((-a) as u128 / 2) as i128)
    };
    let offset_ms: i64 = if h > i64::MAX as i128 {
        i64::MAX
    } else if h < i64::MIN as i128 {
        i64::MIN
    } else {
        h as i64
    };
    let d: i128 = t4 as i128 - t1 as i128 - (t3 as i128 - t2 as i128);
    let delay_ms: u64 = if d < 0 {
        0
    } else if d > u64::MAX as i128 {
        u64::MAX
    } else {
        d as u64
    };
    TimeSyncSample { offset_ms, delay_ms }
}

/// Clocks that agree, and a way that takes as long there as back, give no offset.
pub proof fn lemma_symmetric_path_has_no_offset(t1: u64, way: u64, work: u64)
    requires
        t1 + way + work + way <= u64::MAX,
    ensures
        clock_offset(
            t1,
            (t1 + way) as u64,
            (t1 + way + work) as u64,
            (t1 + way + work + way) as u64,
        ) == 0,
        path_delay(
            t1,
            (t1 + way) as u64,
            (t1 + way + work) as u64,
            (t1 + way + work + way) as u64,
        ) == 2 * way,
{
}

/// Where the way takes as long there as back, the offset is how far the other clock is ahead of
/// the local one, or, as a negative number, how far it is behind; and the delay is that of both
/// ways, without what the answer took.
pub proof fn lemma_offset_is_the_skew(t1: u64, t2: u64, t3: u64, t4: u64, way: int, work: int, skew: int)
    requires
        0 <= way,
        0 <= work,
        t2 == t1 + way + skew,
        t3 == t2 + work,
        t4 == t1 + way + work + way,
        i64::MIN <= skew <= i64::MAX,
    ensures
        clock_offset(t1, t2, t3, t4) == skew,
        path_delay(t1, t2, t3, t4) == 2 * way,
        t4 + clock_offset(t1, t2, t3, t4) == t3 + way,
{
    let x = (t2 - t1) + (t3 - t4);
    assert(x == 2 * skew);
}

/// With the clocks of the two boards exchanged, the same times give the opposite offset, as far as
/// it fits.
pub proof fn lemma_offset_from_the_other_side(t1: u64, t2: u64, t3: u64, t4: u64)
    requires
        -i64::MAX <= clock_offset(t1, t2, t3, t4) < i64::MAX,
    ensures
        clock_offset(t2, t1, t4, t3) == -clock_offset(t1, t2, t3, t4),
{
}

/// A clock that is set ahead by some time has an offset that is greater by as much, as far as it
/// fits; and the delay does not depend on it.
pub proof fn lemma_offset_follows_the_clock(t1: u64, t2: u64, t3: u64, t4: u64, ahead: u64)
    requires
        t2 + ahead <= u64::MAX,
        t3 + ahead <= u64::MAX,
        (t2 - t1) + (t3 - t4) >= 0 || (t2 - t1) + (t3 - t4) + 2 * ahead <= 0,
        i64::MIN < clock_offset(t1, t2, t3, t4),
        clock_offset(t1, t2, t3, t4) + ahead < i64::MAX,
    ensures
        clock_offset(t1, (t2 + ahead) as u64, (t3 + ahead) as u64, t4) == clock_offset(
            t1,
            t2,
            t3,
            t4,
        ) + ahead,
        path_delay(t1, (t2 + ahead) as u64, (t3 + ahead) as u64, t4) == path_delay(t1, t2, t3, t4),
{
}

/// An offset lies, within a millisecond, halfway between what each way shows of the clocks; where
/// that does not fit, it is the last number that does on that side.
pub proof fn lemma_offset_is_halfway(t1: u64, t2: u64, t3: u64, t4: u64)
    ensures
        ({
            let seen = (t2 - t1) + (t3 - t4);
            let off = clock_offset(t1, t2, t3, t4);
            &&& i64::MIN <= off <= i64::MAX
            &&& i64::MIN < off < i64::MAX ==> -1 <= seen - 2 * off <= 1
            &&& seen >= 0 ==> 0 <= off && 2 * off <= seen
            &&& seen <= 0 ==> off <= 0 && seen <= 2 * off
            &&& off == i64::MAX ==> seen >= 2 * i64::MAX
            &&& off == i64::MIN ==> seen <= 2 * i64::MIN
        }),
        ({
            let delay = path_delay(t1, t2, t3, t4);
            &&& 0 <= delay <= u64::MAX
            &&& t4 - t1 >= t3 - t2 && (t4 - t1) - (t3 - t2) <= u64::MAX ==> delay + (t3 - t2) == t4
                - t1
            &&& t4 - t1 <= t3 - t2 ==> delay == 0
        }),
{
}

} // verus!
