//! Pixel frames as the stripe daemons receive them: Open Pixel Control
//! with the channel as the sender's priority.
use vstd::prelude::*;
use crate::udp_proto::{
    channel, command, data_len_field, is_well_formed, payload, poll_outcome, ProtoError,
    CMD_SET_PIXEL_COLORS,
};

verus! {

/// The bytes of the pixels, red, green and blue of each in turn.
pub open spec fn flat(pixels: Seq<[u8; 3]>) -> Seq<u8> {
    Seq::new(3 * pixels.len(), |i: int| pixels[i / 3][i % 3])
}

/// A "set pixel colors" frame for `channel` carrying `data`.
pub open spec fn frame_bytes(channel: u8, data: Seq<u8>) -> Seq<u8> {
    seq![channel, CMD_SET_PIXEL_COLORS, (data.len() / 256) as u8, (data.len() % 256) as u8] + data
}

/// The pixel bytes in a row.
pub fn flatten_pixels(pixels: &[[u8; 3]]) -> (r: Vec<u8>)
    requires
        3 * pixels@.len() <= usize::MAX,
    ensures
        r@ == flat(pixels@),
{
    let mut out: Vec<u8> = Vec::new();
    let mut k: usize = 0;
    while k < pixels.len()
        invariant
            k <= pixels@.len(),
            3 * pixels@.len() <= usize::MAX,
            out@ == flat(pixels@).subrange(0, 3 * k),
        decreases pixels@.len() - k,
    {
        let rgb = pixels[k];
        out.push(rgb[0]);
        out.push(rgb[1]);
        out.push(rgb[2]);
        k = k + 1;
        assert forall|i: int| 0 <= i < 3 * k implies #[trigger] out@[i] == flat(pixels@)[i] by {
            if i >= 3 * (k - 1) {
                assert(i / 3 == k - 1);
            }
        }
        assert(out@ =~= flat(pixels@).subrange(0, 3 * k));
    }
    assert(out@ =~= flat(pixels@));
    out
}

/// The frame that sends `pixels` on `channel`.
pub fn frame(channel: u8, pixels: &[[u8; 3]]) -> (r: Vec<u8>)
    requires
        3 * pixels@.len() <= 0xffff,
    ensures
        r@ == frame_bytes(channel, flat(pixels@)),
{
    let data = flatten_pixels(pixels);
    let len = data.len();
    let mut out: Vec<u8> = Vec::new();
    out.push(channel);
    out.push(CMD_SET_PIXEL_COLORS);
    out.push((len / 256) as u8);
    out.push((len % 256) as u8);
    let mut k: usize = 0;
    while k < len
        invariant
            k <= len,
            len == data@.len(),
            out@ == seq![channel, CMD_SET_PIXEL_COLORS, (len / 256) as u8, (len % 256) as u8]
                + data@.subrange(0, k as int),
        decreases len - k,
    {
        out.push(data[k]);
        k = k + 1;
        assert(out@ =~= seq![channel, CMD_SET_PIXEL_COLORS, (len / 256) as u8, (len % 256) as u8]
            + data@.subrange(0, k as int));
    }
    assert(data@.subrange(0, len as int) =~= data@);
    out
}

/// A receiver shows exactly the pixels of a frame sent on a channel no
/// higher than the one it holds; the frame is well formed and its header
/// reads back the channel and the length.
pub proof fn lemma_frame_round_trip(channel_sent: u8, data: Seq<u8>, prio: u8)
    requires
        data.len() <= 0xffff,
    ensures
        is_well_formed(frame_bytes(channel_sent, data)),
        channel(frame_bytes(channel_sent, data)) == channel_sent,
        command(frame_bytes(channel_sent, data)) == CMD_SET_PIXEL_COLORS,
        payload(frame_bytes(channel_sent, data)) == data,
        channel_sent <= prio ==> poll_outcome(prio, Some(frame_bytes(channel_sent, data))) == Ok::<
            Option<Seq<u8>>,
            ProtoError,
        >(Some(data)),
{
    let f = frame_bytes(channel_sent, data);
    assert(f[2] == (data.len() / 256) as u8);
    assert(f[3] == (data.len() % 256) as u8);
    assert(data_len_field(f) == data.len());
    assert(payload(f) =~= data);
}

} // verus!
