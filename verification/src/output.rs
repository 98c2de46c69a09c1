//! The LED models that the SPI output can drive, and the conversion of RGB
//! pixel data for RGBW LEDs.
use vstd::prelude::*;
use crate::ws2812_spi::{
    buffer_bit, lemma_nulled_buffer, waveform, waveform_len, TimedData, RESAMPLED_KHZ, SAMPLERATE,
};

verus! {

/// The LED controllers on the stripe.
#[derive(Debug, Clone, Copy)]
pub enum Model {
    /// WS2801: clocked RGB, the SPI data is the pixel data.
    WS2801,
    /// SK6812 RGBW: self-clocked, the pixel data is sent as WS2812 pulses.
    SK6812RGBW,
}

/// Size of the buffer that SK6812 data is encoded into, in bytes.
pub const SK6812_BUF_LEN: usize = SAMPLERATE * 4 * 320;

/// The samples that SK6812 LEDs are sent for RGB data `rgb`.
pub open spec fn sk6812_samples(rgb: Seq<u8>) -> Seq<bool> {
    waveform(rgbw_stream(rgb))
}

/// The encoded samples end in the last byte of the SK6812 buffer: the
/// length the encoder reports (rounded past a byte boundary) is the whole
/// buffer, which is what is sent.
pub open spec fn sk6812_frame_fits(rgb: Seq<u8>) -> bool {
    let n = sk6812_samples(rgb).len();
    n - n % 8 + 8 == SK6812_BUF_LEN
}

impl Model {
    /// How long to wait after sending a frame, in µs.
    pub fn delay_us(&self) -> (r: u16)
        ensures
            r == match *self {
                Model::WS2801 => 500u16,
                Model::SK6812RGBW => 50u16,
            },
    {
        match self {
            Model::WS2801 => 500,
            Model::SK6812RGBW => 50,
        }
    }

    /// Whether `frame` can be asked for `rgb`.
    pub fn frame_fits(&self, rgb: &[u8]) -> (r: bool)
        ensures
            r == (*self is SK6812RGBW ==> sk6812_frame_fits(rgb@)),
    {
        match self {
            Model::WS2801 => true,
            Model::SK6812RGBW => {
                let rgbw = rgb_to_rgbw(rgb);
                match waveform_len(rgbw.as_slice(), 8 * SK6812_BUF_LEN) {
                    Some(n) => n - n % 8 + 8 == SK6812_BUF_LEN,
                    None => false,
                }
            },
        }
    }

    /// The bytes sent over SPI to show the pixels `rgb`: the RGB data
    /// itself for WS2801; for SK6812 the RGBW data encoded as pulses into a
    /// zeroed buffer of `SK6812_BUF_LEN` bytes, all of which are sent.
    pub fn frame(&self, rgb: &[u8]) -> (r: Vec<u8>)
        requires
            *self is SK6812RGBW ==> sk6812_frame_fits(rgb@),
        ensures
            *self is WS2801 ==> r@ == rgb@,
            *self is SK6812RGBW ==> {
                &&& r@.len() == SK6812_BUF_LEN
                &&& forall|i: int|
                    0 <= i < 8 * SK6812_BUF_LEN ==> #[trigger] buffer_bit(r@, i) == (i
                        < sk6812_samples(rgb@).len() && sk6812_samples(rgb@)[i])
            },
    {
        match self {
            Model::WS2801 => copy_bytes(rgb),
            Model::SK6812RGBW => {
                let rgbw = rgb_to_rgbw(rgb);
                let mut buf: Vec<u8> = vec![0u8; SK6812_BUF_LEN];
                let ghost zeros = buf@;
                proof {
                    assert forall|k: int| 0 <= k < zeros.len() implies #[trigger] zeros[k] == 0 by {
                        assert(zeros[k] == 0u8);
                    }
                    lemma_nulled_buffer(zeros);
                }
                let output_len = if buf.len() <= SAMPLERATE * 4 * buf.len() / 3 {
                    buf.len()
                } else {
                    SAMPLERATE * 4 * buf.len() / 3
                };
                let output = TimedData::encode(rgbw.as_slice(), buf.as_mut_slice());
                let data = output.as_ref();
                let sent = &data[0..output_len];
                let r = copy_bytes(sent);
                proof {
                    assert forall|i: int| 0 <= i < 8 * SK6812_BUF_LEN implies #[trigger] buffer_bit(
                        r@,
                        i,
                    ) == (i < sk6812_samples(rgb@).len() && sk6812_samples(rgb@)[i]) by {
                        assert(r@[i / 8] == output.bytes()[i / 8]);
                        if i < output.bit_count() {
                            assert(output.written()[i] == buffer_bit(output.bytes(), i));
                        } else {
                            assert(buffer_bit(output.bytes(), i) == buffer_bit(zeros, i));
                        }
                    }
                }
                r
            },
        }
    }

    /// The SPI clock for the model, in kHz.
    pub fn spi_clock(&self) -> (r: u32)
        ensures
            r == match *self {
                Model::WS2801 => 2000,
                Model::SK6812RGBW => RESAMPLED_KHZ,
            },
    {
        match self {
            Model::WS2801 => 2000u32,
            Model::SK6812RGBW => RESAMPLED_KHZ as u32,
        }
    }
}

/// The white part of an RGB pixel: the smallest of its channels.
pub open spec fn white(r: u8, g: u8, b: u8) -> u8 {
    let rg = if r <= g { r } else { g };
    if rg <= b { rg } else { b }
}

/// Channel `c` (0: red, 1: green, 2: blue, 3: white) of the RGBW pixel for
/// pixel `p` of `src`.
pub open spec fn rgbw_component(src: Seq<u8>, p: int, c: int) -> u8 {
    let r = src[3 * p];
    let g = src[3 * p + 1];
    let b = src[3 * p + 2];
    let w = white(r, g, b);
    if c == 0 {
        (r - w) as u8
    } else if c == 1 {
        (g - w) as u8
    } else if c == 2 {
        (b - w) as u8
    } else {
        w
    }
}

/// RGBW data for every whole RGB pixel of `src`; a trailing partial pixel
/// gives nothing.
pub open spec fn rgbw_stream(src: Seq<u8>) -> Seq<u8> {
    Seq::new((4 * (src.len() / 3)) as nat, |i: int| rgbw_component(src, i / 4, i % 4))
}

/// Every whole RGB pixel `p` becomes four RGBW bytes from which it is
/// restored: each color channel plus the white one is the RGB channel, and
/// white takes all it can, so that one color channel is zero.
pub proof fn lemma_rgbw_restores_rgb(src: Seq<u8>, p: int)
    requires
        0 <= p < src.len() / 3,
    ensures
        rgbw_stream(src)[4 * p] + rgbw_stream(src)[4 * p + 3] == src[3 * p],
        rgbw_stream(src)[4 * p + 1] + rgbw_stream(src)[4 * p + 3] == src[3 * p + 1],
        rgbw_stream(src)[4 * p + 2] + rgbw_stream(src)[4 * p + 3] == src[3 * p + 2],
        rgbw_stream(src)[4 * p] == 0 || rgbw_stream(src)[4 * p + 1] == 0 || rgbw_stream(src)[4
            * p + 2] == 0,
{
    assert(3 * p + 2 < src.len()) by (nonlinear_arith)
        requires
            0 <= p < src.len() / 3,
    ;
    assert(4 * p + 3 < rgbw_stream(src).len()) by (nonlinear_arith)
        requires
            0 <= p < src.len() / 3,
            rgbw_stream(src).len() == 4 * (src.len() / 3),
    ;
    assert((4 * p) / 4 == p && (4 * p) % 4 == 0);
    assert((4 * p + 1) / 4 == p && (4 * p + 1) % 4 == 1);
    assert((4 * p + 2) / 4 == p && (4 * p + 2) % 4 == 2);
    assert((4 * p + 3) / 4 == p && (4 * p + 3) % 4 == 3);
}

/// Turns RGB data into RGBW data, one byte at a time: the white channel
/// takes the part common to red, green and blue.
pub struct RgbToRgbw<'s> {
    src: &'s [u8],
    src_pos: usize,
    buf_pos: usize,
    buf: [u8; 4],
}

impl<'s> RgbToRgbw<'s> {
    /// The converter's state is consistent: a buffered pixel is the one
    /// last read, and only the end of the data is left unread as a partial
    /// pixel.
    pub closed spec fn wf(&self) -> bool {
        &&& self.buf_pos <= 4
        &&& self.src_pos <= self.src@.len()
        &&& self.src_pos % 3 != 0 ==> self.src_pos == self.src@.len()
        &&& self.buf_pos < 4 ==> {
            &&& self.src_pos % 3 == 0
            &&& self.src_pos >= 3
            &&& forall|c: int|
                0 <= c < 4 ==> #[trigger] self.buf@[c] == rgbw_component(
                    self.src@,
                    self.src_pos / 3 - 1,
                    c,
                )
        }
    }

    /// The RGB data converted.
    pub closed spec fn source(&self) -> Seq<u8> {
        self.src@
    }

    /// How many RGBW bytes were handed out.
    pub closed spec fn emitted(&self) -> nat {
        if self.buf_pos < 4 {
            (4 * (self.src_pos / 3) - 4 + self.buf_pos) as nat
        } else {
            (4 * (self.src_pos / 3)) as nat
        }
    }

    /// A converter at the start of `src`.
    pub fn new(src: &'s [u8]) -> (r: Self)
        ensures
            r.wf(),
            r.source() == src@,
            r.emitted() == 0,
    {
        RgbToRgbw { src, src_pos: 0, buf_pos: 4, buf: [0u8; 4] }
    }

    /// The next RGBW byte, or `None` once every whole pixel was converted.
    pub fn next(&mut self) -> (r: Option<u8>)
        requires
            old(self).wf(),
        ensures
            final(self).wf(),
            final(self).source() == old(self).source(),
            old(self).emitted() < rgbw_stream(old(self).source()).len() ==> r == Some(
                rgbw_stream(old(self).source())[old(self).emitted() as int],
            ) && final(self).emitted() == old(self).emitted() + 1,
            old(self).emitted() >= rgbw_stream(old(self).source()).len() ==> r is None
                && final(self).emitted() == old(self).emitted(),
    {
        let ghost k = self.emitted();
        let ghost src = self.src@;
        if self.buf_pos >= 4 {
            let ghost start = self.src_pos;
            if self.src.len() - self.src_pos < 3 {
                // Not a whole pixel left: what is left is read and dropped.
                self.src_pos = self.src.len();
                proof {
                    assert(start % 3 == 0 || start == src.len());
                }
                return None;
            }
            let r = self.src[self.src_pos];
            let g = self.src[self.src_pos + 1];
            let b = self.src[self.src_pos + 2];
            let rg = if r <= g { r } else { g };
            let w = if rg <= b { rg } else { b };
            self.buf = [r - w, g - w, b - w, w];
            self.buf_pos = 0;
            self.src_pos = self.src_pos + 3;
            proof {
                assert(start % 3 == 0);
                assert((start + 3) / 3 - 1 == start / 3);
            }
        }
        let buf_pos = self.buf_pos;
        self.buf_pos = self.buf_pos + 1;
        let out = self.buf[buf_pos];
        proof {
            let p = self.src_pos / 3 - 1;
            assert(k == 4 * p + buf_pos);
            assert((4 * p + buf_pos) / 4 == p && (4 * p + buf_pos) % 4 == buf_pos as int)
                by (nonlinear_arith)
                requires
                    0 <= buf_pos < 4,
                    p >= 0,
            ;
            assert(k < rgbw_stream(src).len()) by (nonlinear_arith)
                requires
                    k == 4 * p + buf_pos,
                    0 <= buf_pos < 4,
                    p == self.src_pos / 3 - 1,
                    self.src_pos <= src.len(),
                    self.src_pos >= 3,
                    rgbw_stream(src).len() == 4 * (src.len() / 3),
            ;
        }
        Some(out)
    }
}

/// A copy of `src`.
fn copy_bytes(src: &[u8]) -> (r: Vec<u8>)
    ensures
        r@ == src@,
{
    let mut out: Vec<u8> = Vec::new();
    let mut k: usize = 0;
    while k < src.len()
        invariant
            k <= src@.len(),
            out@ == src@.subrange(0, k as int),
        decreases src@.len() - k,
    {
        out.push(src[k]);
        k = k + 1;
        assert(out@ =~= src@.subrange(0, k as int));
    }
    assert(out@ =~= src@);
    out
}

/// The RGBW data for every whole pixel of `rgb`.
pub fn rgb_to_rgbw(rgb: &[u8]) -> (r: Vec<u8>)
    ensures
        r@ == rgbw_stream(rgb@),
{
    let mut conv = RgbToRgbw::new(rgb);
    let mut out: Vec<u8> = Vec::new();
    loop
        invariant
            conv.wf(),
            conv.source() == rgb@,
            out@ == rgbw_stream(rgb@).subrange(0, conv.emitted() as int),
            conv.emitted() <= rgbw_stream(rgb@).len(),
        ensures
            out@ == rgbw_stream(rgb@),
        decreases rgbw_stream(rgb@).len() - conv.emitted(),
    {
        match conv.next() {
            Some(b) => {
                out.push(b);
                assert(out@ =~= rgbw_stream(rgb@).subrange(0, conv.emitted() as int));
            },
            None => {
                assert(out@ =~= rgbw_stream(rgb@));
                break ;
            },
        }
    }
    out
}

} // verus!
