//! The pixel protocol received over UDP: Open Pixel Control frames whose
//! channel is a priority.
//!
//! A frame is `channel, command, length (big endian, 2 bytes), data`.  Only
//! the command "set pixel colors" (0) is known.  A frame of a lower channel
//! number has priority: frames of a higher channel are ignored while a
//! sender of lower channel was heard within the last `PRIO_TIMEOUT`
//! milliseconds.
use vstd::prelude::*;

verus! {

/// How long a sender keeps its priority after its last frame, in ms.
pub const PRIO_TIMEOUT: i64 = 500;

/// The command that sets the pixel colors.
pub const CMD_SET_PIXEL_COLORS: u8 = 0;

/// The channel that any sender may preempt.
pub const LOWEST_PRIO: u8 = 255;

/// Why a frame was refused.
#[derive(Debug, Clone, Copy, PartialEq, Eq)]
pub enum ProtoError {
    /// The frame is shorter than its header, or its length field does not
    /// match its size.
    Illegal,
    /// The frame holds a command other than "set pixel colors".
    Unrecognized,
}

/// The length field of a frame's header.
pub open spec fn data_len_field(packet: Seq<u8>) -> int {
    packet[2] as int * 256 + packet[3] as int
}

/// The frame has a header and exactly the data its header announces.
pub open spec fn is_well_formed(packet: Seq<u8>) -> bool {
    packet.len() >= 4 && data_len_field(packet) + 4 == packet.len()
}

/// The frame's channel.
pub open spec fn channel(packet: Seq<u8>) -> u8 {
    packet[0]
}

/// The frame's command.
pub open spec fn command(packet: Seq<u8>) -> u8 {
    packet[1]
}

/// The frame's data: what follows the header.
pub open spec fn payload(packet: Seq<u8>) -> Seq<u8> {
    packet.subrange(4, packet.len() as int)
}

/// The frame is one whose pixels are displayed by a receiver that holds
/// channel `prio`.
pub open spec fn is_accepted(prio: u8, packet: Seq<u8>) -> bool {
    is_well_formed(packet) && command(packet) == CMD_SET_PIXEL_COLORS && channel(packet) <= prio
}

/// What a poll answers: with no frame `Ok(None)`; for a frame, its data when
/// it is displayed, `Ok(None)` when it is ignored for its channel, or why it
/// was refused.
pub open spec fn poll_outcome(prio: u8, packet: Option<Seq<u8>>) -> Result<
    Option<Seq<u8>>,
    ProtoError,
> {
    match packet {
        None => Ok(None),
        Some(p) => if !is_well_formed(p) {
            Err(ProtoError::Illegal)
        } else if command(p) != CMD_SET_PIXEL_COLORS {
            Err(ProtoError::Unrecognized)
        } else if channel(p) <= prio {
            Ok(Some(payload(p)))
        } else {
            Ok(None)
        },
    }
}

/// The channel held and the time of the last displayed frame after a poll
/// at `now`.
pub open spec fn poll_state(prio: u8, last: int, packet: Option<Seq<u8>>, now: int) -> (u8, int) {
    match packet {
        None => if last + PRIO_TIMEOUT <= now {
            (LOWEST_PRIO, last)
        } else {
            (prio, last)
        },
        Some(p) => if is_accepted(prio, p) {
            (channel(p), now)
        } else {
            (prio, last)
        },
    }
}

/// The view of an optional frame.
pub open spec fn packet_view(packet: Option<&[u8]>) -> Option<Seq<u8>> {
    match packet {
        Some(p) => Some(p@),
        None => None,
    }
}

/// The view of a poll's result.
pub open spec fn result_view(r: Result<Option<&[u8]>, ProtoError>) -> Result<
    Option<Seq<u8>>,
    ProtoError,
> {
    match r {
        Ok(Some(d)) => Ok(Some(d@)),
        Ok(None) => Ok(None),
        Err(e) => Err(e),
    }
}

/// The priority state of a pixel receiver.
pub struct Receiver {
    current_prio: u8,
    last_packet: i64,
}

impl Receiver {
    /// The channel currently held.
    pub closed spec fn prio(&self) -> u8 {
        self.current_prio
    }

    /// When the last displayed frame came, in ms.
    pub closed spec fn last(&self) -> int {
        self.last_packet as int
    }

    /// A receiver that any channel may take, with its last frame at time 0.
    pub fn new() -> (r: Self)
        ensures
            r.prio() == LOWEST_PRIO,
            r.last() == 0,
    {
        Receiver { current_prio: LOWEST_PRIO, last_packet: 0 }
    }

    /// The channel currently held.
    pub fn current_prio(&self) -> (r: u8)
        ensures
            r == self.prio(),
    {
        self.current_prio
    }

    /// When the last displayed frame came, in ms.
    pub fn last_packet(&self) -> (r: i64)
        ensures
            r == self.last(),
    {
        self.last_packet
    }

    /// Handle one poll at time `now` (ms): `packet` is the frame received, or
    /// `None` when none was waiting.  Returns the pixel data to display.
    pub fn poll<'p>(&mut self, packet: Option<&'p [u8]>, now: i64) -> (r: Result<
        Option<&'p [u8]>,
        ProtoError,
    >)
        requires
            packet is None ==> old(self).last() + PRIO_TIMEOUT <= i64::MAX,
        ensures
            result_view(r) == poll_outcome(old(self).prio(), packet_view(packet)),
            (final(self).prio(), final(self).last()) == poll_state(
                old(self).prio(),
                old(self).last(),
                packet_view(packet),
                now as int,
            ),
    {
        match packet {
            Some(packet) => {
                if packet.len() < 4 {
                    return Err(ProtoError::Illegal);
                }
                let channel = packet[0];
                let command = packet[1];
                let hi = packet[2];
                let lo = packet[3];
                let data_len = ((hi as usize) << 8) | (lo as usize);
                assert(((hi as usize) << 8) | (lo as usize) == hi as int * 256 + lo as int)
                    by (bit_vector);
                if data_len + 4 != packet.len() {
                    return Err(ProtoError::Illegal);
                }
                let data = &packet[4..packet.len()];
                if command == CMD_SET_PIXEL_COLORS && channel <= self.current_prio {
                    self.current_prio = channel;
                    self.last_packet = now;
                    Ok(Some(data))
                } else if command == CMD_SET_PIXEL_COLORS {
                    // Ignore higher channel (lower prio)
                    Ok(None)
                } else {
                    Err(ProtoError::Unrecognized)
                }
            },
            None => {
                if self.last_packet + PRIO_TIMEOUT <= now {
                    self.current_prio = LOWEST_PRIO;
                }
                Ok(None)
            },
        }
    }
}

/// The length field is big endian: byte 2 is the high byte, byte 3 the low
/// one, and the field ranges over `0..=0xffff`.
pub proof fn lemma_length_big_endian(packet: Seq<u8>)
    requires
        packet.len() >= 4,
    ensures
        data_len_field(packet) / 256 == packet[2],
        data_len_field(packet) % 256 == packet[3],
        0 <= data_len_field(packet) <= 0xffff,
{
}

/// A receiver that has heard no frame for `PRIO_TIMEOUT` ms, once polled
/// without a frame, displays the next well-formed pixel frame of any channel.
pub proof fn lemma_timeout_frees_priority(
    prio: u8,
    last: int,
    now: int,
    later: int,
    packet: Seq<u8>,
)
    requires
        last + PRIO_TIMEOUT <= now,
        is_well_formed(packet),
        command(packet) == CMD_SET_PIXEL_COLORS,
    ensures
        ({
            let s = poll_state(prio, last, None, now);
            &&& poll_outcome(s.0, Some(packet)) == Ok::<Option<Seq<u8>>, ProtoError>(
                Some(payload(packet)),
            )
            &&& poll_state(s.0, s.1, Some(packet), later) == (channel(packet), later)
        }),
{
}

/// Within the timeout, a poll without a frame keeps the channel held.
pub proof fn lemma_priority_held_within_timeout(prio: u8, last: int, now: int)
    requires
        now < last + PRIO_TIMEOUT,
    ensures
        poll_state(prio, last, None, now) == (prio, last),
{
}

/// A frame that is not displayed leaves the receiver as it was; one that is
/// displayed makes its channel the one held, so that the same sender keeps
/// being displayed.
pub proof fn lemma_frame_effect(prio: u8, last: int, now: int, later: int, packet: Seq<u8>)
    ensures
        !is_accepted(prio, packet) ==> poll_state(prio, last, Some(packet), now) == (prio, last),
        is_accepted(prio, packet) ==> ({
            let s = poll_state(prio, last, Some(packet), now);
            &&& s == (channel(packet), now)
            &&& is_accepted(s.0, packet)
        }),
{
}

/// Frames of a higher channel than the one held are never displayed.
pub proof fn lemma_lower_priority_ignored(prio: u8, packet: Seq<u8>)
    requires
        channel(packet) > prio,
    ensures
        !(poll_outcome(prio, Some(packet)) matches Ok(Some(_))),
{
}

} // verus!
