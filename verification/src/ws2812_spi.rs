//! WS2812/SK6812 timing over SPI.
//!
//! The LEDs read a single wire on which every data bit is a high pulse
//! followed by a low pulse, the pulse widths telling a `0` from a `1`.  The
//! SPI peripheral is clocked `SAMPLERATE` times faster than the LED protocol,
//! so that every LED bit turns into a run of SPI bits which draw that
//! waveform on MOSI.
use vstd::prelude::*;

verus! {

/// SPI samples per LED protocol bit period.
pub const SAMPLERATE: usize = 12;

/// Bit rate of the LED protocol in kHz.
pub const RATE_KHZ: usize = 800;

/// SPI clock that the encoded data has to be sent with, in kHz.
pub const RESAMPLED_KHZ: usize = SAMPLERATE * RATE_KHZ;

/// Length of one protocol bit in ns.
pub const D_TIME: usize = 1_000_000 / 800;

/// High time of a `0` bit, in samples.
pub const D0H: usize = SAMPLERATE * 350 / D_TIME;

/// Low time of a `0` bit, in samples.
pub const D0L: usize = SAMPLERATE * 700 / D_TIME;

/// High time of a `1` bit, in samples.
pub const D1H: usize = SAMPLERATE * 800 / D_TIME;

/// Low time of a `1` bit, in samples.
pub const D1L: usize = SAMPLERATE * 600 / D_TIME;

/// `n` samples of the same level.
pub open spec fn level(n: nat, high: bool) -> Seq<bool> {
    Seq::new(n, |_i: int| high)
}

/// The samples that encode one data bit: a high run, then a low run.
pub open spec fn pulse(bit: bool) -> Seq<bool> {
    if bit {
        level(D1H as nat, true) + level(D1L as nat, false)
    } else {
        level(D0H as nat, true) + level(D0L as nat, false)
    }
}

/// Bit `k` of `byte`, counted from the most significant one.
pub open spec fn data_bit(byte: u8, k: nat) -> bool {
    byte & (0x80u8 >> (k as u8)) != 0
}

/// The samples for the `k` most significant bits of `byte`.
pub open spec fn byte_waveform_prefix(byte: u8, k: nat) -> Seq<bool>
    decreases k,
{
    if k == 0 {
        Seq::empty()
    } else {
        byte_waveform_prefix(byte, (k - 1) as nat) + pulse(data_bit(byte, (k - 1) as nat))
    }
}

/// The samples for a whole byte, most significant bit first.
pub open spec fn byte_waveform(byte: u8) -> Seq<bool> {
    byte_waveform_prefix(byte, 8)
}

/// The samples for a sequence of bytes, sent in order.
pub open spec fn waveform(input: Seq<u8>) -> Seq<bool>
    decreases input.len(),
{
    if input.len() == 0 {
        Seq::empty()
    } else {
        waveform(input.drop_last()) + byte_waveform(input.last())
    }
}

/// Sample `i` of a buffer: the bits of every byte, most significant first.
pub open spec fn buffer_bit(buf: Seq<u8>, i: int) -> bool {
    buf[i / 8] & (0x80u8 >> ((i % 8) as u8)) != 0
}

/// The first `n` samples of a buffer.
pub open spec fn buffer_bits(buf: Seq<u8>, n: nat) -> Seq<bool> {
    Seq::new(n, |i: int| buffer_bit(buf, i))
}

/// The samples of a data bit: a high run and then a low run, each the
/// whole number of SPI samples (12 per 1250 ns protocol bit) that fits in
/// the LED's timing: 350 ns high and 700 ns low for a `0`, 800 ns high and
/// 600 ns low for a `1`.  A `1` is high longer than a `0`.
pub proof fn lemma_pulse_timing(bit: bool, high: nat, low: nat)
    requires
        high * 1250 <= 12 * (if bit { 800int } else { 350int }) < (high + 1) * 1250,
        low * 1250 <= 12 * (if bit { 600int } else { 700int }) < (low + 1) * 1250,
    ensures
        pulse(bit) == level(high, true) + level(low, false),
        level(D1H as nat, true).len() > level(D0H as nat, true).len(),
{
    assert(high == if bit { D1H } else { D0H }) by (nonlinear_arith)
        requires
            high * 1250 <= 12 * (if bit { 800int } else { 350int }) < (high + 1) * 1250,
            D1H == 7,
            D0H == 3,
    ;
    assert(low == if bit { D1L } else { D0L }) by (nonlinear_arith)
        requires
            low * 1250 <= 12 * (if bit { 600int } else { 700int }) < (low + 1) * 1250,
            D1L == 5,
            D0L == 6,
    ;
}

proof fn lemma_set_bit(x: u8, k: u8, j: u8)
    requires
        k < 8,
        j < 8,
    ensures
        ((x | (0x80u8 >> k)) & (0x80u8 >> j) != 0) == (j == k || x & (0x80u8 >> j) != 0),
        ((x & !(0x80u8 >> k)) & (0x80u8 >> j) != 0) == (j != k && x & (0x80u8 >> j) != 0),
{
    assert(((x | (0x80u8 >> k)) & (0x80u8 >> j) != 0) == (j == k || x & (0x80u8 >> j) != 0))
        by (bit_vector)
        requires
            k < 8,
            j < 8,
    ;
    assert(((x & !(0x80u8 >> k)) & (0x80u8 >> j) != 0) == (j != k && x & (0x80u8 >> j) != 0))
        by (bit_vector)
        requires
            k < 8,
            j < 8,
    ;
}

proof fn lemma_pulse_len(bit: bool)
    ensures
        9 <= pulse(bit).len() <= 12,
{
}

proof fn lemma_byte_waveform_prefix_len(byte: u8, k: nat, m: nat)
    requires
        k <= m,
    ensures
        byte_waveform_prefix(byte, k).len() <= byte_waveform_prefix(byte, m).len(),
        9 * k <= byte_waveform_prefix(byte, k).len() <= 12 * k,
    decreases m,
{
    if k < m {
        lemma_byte_waveform_prefix_len(byte, k, (m - 1) as nat);
        lemma_pulse_len(data_bit(byte, (m - 1) as nat));
    } else if k > 0 {
        lemma_byte_waveform_prefix_len(byte, (k - 1) as nat, (k - 1) as nat);
        lemma_pulse_len(data_bit(byte, (k - 1) as nat));
    }
}

/// The waveform of a prefix grows one byte at a time.
proof fn lemma_waveform_step(input: Seq<u8>, k: int)
    requires
        0 <= k < input.len(),
    ensures
        waveform(input.subrange(0, k + 1)) == waveform(input.subrange(0, k)) + byte_waveform(
            input[k],
        ),
{
    assert(input.subrange(0, k + 1).drop_last() =~= input.subrange(0, k));
}

/// The waveform of a prefix is no longer than that of the whole input.
proof fn lemma_waveform_prefix_len(input: Seq<u8>, k: int)
    requires
        0 <= k <= input.len(),
    ensures
        waveform(input.subrange(0, k)).len() <= waveform(input).len(),
    decreases input.len() - k,
{
    if k < input.len() {
        lemma_waveform_prefix_len(input, k + 1);
        lemma_waveform_step(input, k);
    } else {
        assert(input.subrange(0, k) =~= input);
    }
}

/// Encoding is done byte by byte: the samples of `a + b` are those of `a`
/// followed by those of `b`.
pub proof fn lemma_waveform_concat(a: Seq<u8>, b: Seq<u8>)
    ensures
        waveform(a + b) == waveform(a) + waveform(b),
    decreases b.len(),
{
    if b.len() == 0 {
        assert(a + b =~= a);
        assert(waveform(a) + waveform(b) =~= waveform(a));
    } else {
        lemma_waveform_concat(a, b.drop_last());
        assert((a + b).drop_last() =~= a + b.drop_last());
        assert(waveform(a) + waveform(b) =~= waveform(a) + waveform(b.drop_last())
            + byte_waveform(b.last()));
    }
}

/// Every data bit takes 9 samples when it is `0` and 12 when it is `1`:
/// a byte takes between 72 and 96 samples.
pub proof fn lemma_waveform_len(input: Seq<u8>)
    ensures
        72 * input.len() <= waveform(input).len() <= 96 * input.len(),
    decreases input.len(),
{
    if input.len() > 0 {
        lemma_waveform_len(input.drop_last());
        lemma_byte_waveform_prefix_len(input.last(), 8, 8);
    }
}

/// In a nulled buffer every sample is low, so that `encode` into a nulled
/// buffer leaves exactly the samples of the input set.
pub proof fn lemma_nulled_buffer(buf: Seq<u8>)
    requires
        forall|k: int| 0 <= k < buf.len() ==> #[trigger] buf[k] == 0,
    ensures
        forall|i: int| 0 <= i < 8 * buf.len() ==> !#[trigger] buffer_bit(buf, i),
{
    assert forall|i: int| 0 <= i < 8 * buf.len() implies !#[trigger] buffer_bit(buf, i) by {
        let m = 0x80u8 >> ((i % 8) as u8);
        assert(buf[i / 8] == 0);
        assert(0u8 & m == 0) by (bit_vector);
    }
}

/// Data bits are sent most significant first, and the samples fill each
/// buffer byte from its most significant bit: bit `k` of a byte is its bit
/// of value `2^(7 - k)`.
pub proof fn lemma_msb_first(byte: u8, k: u8, buf: Seq<u8>, i: int)
    requires
        k < 8,
        0 <= i < 8 * buf.len(),
    ensures
        data_bit(byte, k as nat) == ((byte >> ((7 - k) as u8)) & 1 == 1),
        buffer_bit(buf, i) == ((buf[i / 8] >> ((7 - i % 8) as u8)) & 1 == 1),
{
    assert((byte & (0x80u8 >> k) != 0) == ((byte >> ((7 - k) as u8)) & 1 == 1)) by (bit_vector)
        requires
            k < 8,
    ;
    let b = buf[i / 8];
    let j = (i % 8) as u8;
    assert((b & (0x80u8 >> j) != 0) == ((b >> ((7 - j) as u8)) & 1 == 1)) by (bit_vector)
        requires
            j < 8,
    ;
}

/// The number of samples that `input` encodes to, when it is at most
/// `limit`.
pub fn waveform_len(input: &[u8], limit: usize) -> (r: Option<usize>)
    ensures
        r == (if waveform(input@).len() <= limit {
            Some(waveform(input@).len() as usize)
        } else {
            None::<usize>
        }),
{
    let mut total: usize = 0;
    let mut idx: usize = 0;
    assert(input@.subrange(0, 0) =~= Seq::<u8>::empty());
    while idx < input.len()
        invariant
            0 <= idx <= input@.len(),
            total == waveform(input@.subrange(0, idx as int)).len(),
            total <= limit,
        decreases input@.len() - idx,
    {
        let byte = input[idx];
        let ghost base = total as nat;
        proof {
            lemma_waveform_step(input@, idx as int);
        }
        let mut bit_pos: u8 = 0;
        while bit_pos < 8
            invariant
                bit_pos <= 8,
                idx < input@.len(),
                total == base + byte_waveform_prefix(byte, bit_pos as nat).len(),
                total <= limit,
                base + byte_waveform(byte).len() == waveform(input@.subrange(0, idx as int + 1)).len(),
            decreases 8 - bit_pos,
        {
            let bit = byte & (0x80 >> bit_pos) != 0;
            assert(bit == data_bit(byte, bit_pos as nat));
            let width: usize = if !bit {
                D0H + D0L
            } else {
                D1H + D1L
            };
            assert(width == pulse(bit).len());
            if total > limit || limit - total < width {
                proof {
                    lemma_byte_waveform_prefix_len(byte, bit_pos as nat + 1, 8);
                    lemma_waveform_prefix_len(input@, idx as int + 1);
                }
                return None;
            }
            total = total + width;
            bit_pos = bit_pos + 1;
        }
        idx = idx + 1;
    }
    assert(input@.subrange(0, input@.len() as int) =~= input@);
    Some(total)
}

/// A bit buffer that is filled with the SPI samples of LED data.
pub struct TimedData<'a> {
    buf: &'a mut [u8],
    bits: usize,
}

impl<'a> TimedData<'a> {
    /// Number of samples written.
    pub closed spec fn bit_count(&self) -> nat {
        self.bits as nat
    }

    /// The whole buffer.
    pub closed spec fn bytes(&self) -> Seq<u8> {
        self.buf@
    }

    /// The samples written so far.
    pub open spec fn written(&self) -> Seq<bool> {
        buffer_bits(self.bytes(), self.bit_count())
    }

    /// Encode `input` into `output`, each data bit as one `pulse`.
    ///
    /// `output` should be nulled: the samples after the written ones keep
    /// whatever the buffer held.
    pub fn encode(input: &[u8], output: &'a mut [u8]) -> (r: Self)
        requires
            waveform(input@).len() <= 8 * old(output)@.len(),
            waveform(input@).len() <= usize::MAX,
        ensures
            r.bit_count() == waveform(input@).len(),
            r.written() == waveform(input@),
            r.bytes().len() == old(output)@.len(),
            forall|i: int|
                r.bit_count() <= i < 8 * r.bytes().len() ==> #[trigger] buffer_bit(r.bytes(), i)
                    == buffer_bit(old(output)@, i),
    {
        let ghost orig = output@;
        let mut self_ = TimedData { buf: output, bits: 0 };
        let mut idx: usize = 0;
        assert(self_.written() =~= waveform(input@.subrange(0, 0)));
        while idx < input.len()
            invariant
                0 <= idx <= input@.len(),
                self_.buf@.len() == orig.len(),
                self_.bits == waveform(input@.subrange(0, idx as int)).len(),
                self_.written() == waveform(input@.subrange(0, idx as int)),
                waveform(input@).len() <= 8 * orig.len(),
                waveform(input@).len() <= usize::MAX,
                forall|i: int|
                    self_.bits <= i < 8 * orig.len() ==> #[trigger] buffer_bit(self_.buf@, i)
                        == buffer_bit(orig, i),
            decreases input@.len() - idx,
        {
            let byte = input[idx];
            let ghost base = waveform(input@.subrange(0, idx as int));
            proof {
                lemma_waveform_step(input@, idx as int);
                lemma_waveform_prefix_len(input@, idx as int + 1);
            }
            let mut bit_pos: u8 = 0;
            while bit_pos < 8
                invariant
                    bit_pos <= 8,
                    self_.buf@.len() == orig.len(),
                    base + byte_waveform(byte) == waveform(input@.subrange(0, idx as int + 1)),
                    waveform(input@.subrange(0, idx as int + 1)).len() <= 8 * orig.len(),
                    waveform(input@.subrange(0, idx as int + 1)).len() <= usize::MAX,
                    self_.bits == base.len() + byte_waveform_prefix(byte, bit_pos as nat).len(),
                    self_.written() == base + byte_waveform_prefix(byte, bit_pos as nat),
                    forall|i: int|
                        self_.bits <= i < 8 * orig.len() ==> #[trigger] buffer_bit(self_.buf@, i)
                            == buffer_bit(orig, i),
                decreases 8 - bit_pos,
            {
                let bit = byte & (0x80 >> bit_pos) != 0;
                let ghost before = self_.written();
                proof {
                    lemma_byte_waveform_prefix_len(byte, bit_pos as nat + 1, 8);
                    assert(bit == data_bit(byte, bit_pos as nat));
                }
                if !bit {
                    self_.push(true, D0H);
                    self_.push(false, D0L);
                } else {
                    self_.push(true, D1H);
                    self_.push(false, D1L);
                }
                proof {
                    assert(self_.written() =~= before + pulse(bit));
                    assert(byte_waveform_prefix(byte, bit_pos as nat + 1) == byte_waveform_prefix(
                        byte,
                        bit_pos as nat,
                    ) + pulse(bit));
                    assert(self_.written() =~= base + byte_waveform_prefix(
                        byte,
                        bit_pos as nat + 1,
                    ));
                }
                bit_pos = bit_pos + 1;
            }
            idx = idx + 1;
        }
        assert(input@.subrange(0, input@.len() as int) =~= input@);
        self_
    }

    /// Append `len` samples of the level `bit`.
    fn push(&mut self, bit: bool, len: usize)
        requires
            old(self).bits + len <= 8 * old(self).buf@.len(),
            old(self).bits + len <= usize::MAX,
        ensures
            final(self).bits == old(self).bits + len,
            final(self).buf@.len() == old(self).buf@.len(),
            final(self).written() == old(self).written() + level(len as nat, bit),
            forall|i: int|
                final(self).bits <= i < 8 * final(self).buf@.len() ==> #[trigger] buffer_bit(
                    final(self).buf@,
                    i,
                ) == buffer_bit(old(self).buf@, i),
    {
        let mut k: usize = 0;
        while k < len
            invariant
                k <= len,
                self.bits == old(self).bits + k,
                self.buf@.len() == old(self).buf@.len(),
                old(self).bits + len <= 8 * old(self).buf@.len(),
                old(self).bits + len <= usize::MAX,
                self.written() =~= old(self).written() + level(k as nat, bit),
                forall|i: int|
                    self.bits <= i < 8 * self.buf@.len() ==> #[trigger] buffer_bit(self.buf@, i)
                        == buffer_bit(old(self).buf@, i),
            decreases len - k,
        {
            let ghost before = self.written();
            self.push_bit(bit);
            assert(self.written() =~= before.push(bit));
            assert(old(self).written() + level(k as nat + 1, bit) =~= (old(self).written() + level(
                k as nat,
                bit,
            )).push(bit));
            k = k + 1;
        }
    }

    /// Append one sample.
    fn push_bit(&mut self, bit: bool)
        requires
            old(self).bits < 8 * old(self).buf@.len(),
            old(self).bits + 1 <= usize::MAX,
        ensures
            final(self).bits == old(self).bits + 1,
            final(self).buf@.len() == old(self).buf@.len(),
            buffer_bit(final(self).buf@, old(self).bits as int) == bit,
            forall|i: int|
                0 <= i < 8 * final(self).buf@.len() && i != old(self).bits ==> #[trigger] buffer_bit(
                    final(self).buf@,
                    i,
                ) == buffer_bit(old(self).buf@, i),
            final(self).written() == old(self).written().push(bit),
    {
        let pos = self.bits >> 3;
        let bit_pos = self.bits & 7;
        let bits = self.bits;
        assert(pos == bits / 8 && bit_pos == bits % 8) by (bit_vector)
            requires
                pos == bits >> 3,
                bit_pos == bits & 7,
        ;
        let mask: u8 = 0x80 >> bit_pos;
        let ghost old_buf = self.buf@;
        if bit {
            self.buf[pos] = self.buf[pos] | mask;
        } else {
            self.buf[pos] = self.buf[pos] & !mask;
        }
        self.bits = self.bits + 1;
        proof {
            assert forall|i: int| 0 <= i < 8 * self.buf@.len() implies #[trigger] buffer_bit(
                self.buf@,
                i,
            ) == (if i == bits { bit } else { buffer_bit(old_buf, i) }) by {
                if i / 8 == pos as int {
                    lemma_set_bit(old_buf[pos as int], bit_pos as u8, (i % 8) as u8);
                }
            }
            assert(self.written() =~= old(self).written().push(bit));
        }
    }

    /// The length of the encoded data: the sample count rounded up past the
    /// next byte boundary.
    pub fn len(&self) -> (r: usize)
        requires
            self.bit_count() - self.bit_count() % 8 + 8 <= usize::MAX,
        ensures
            r == ((self.bit_count() as usize) | 7usize) + 1,
            r == self.bit_count() - self.bit_count() % 8 + 8,
    {
        let bits = self.bits;
        assert((bits | 7) == bits - bits % 8 + 7) by (bit_vector);
        (self.bits | 7) + 1
    }

    /// The buffer, released for other uses.
    pub fn into_inner(self) -> (r: &'a mut [u8])
        ensures
            r@ == self.bytes(),
    {
        self.buf
    }

    /// The first `len()` bytes of the buffer.
    pub fn as_ref(&self) -> (r: &[u8])
        requires
            self.bit_count() - self.bit_count() % 8 + 8 <= usize::MAX,
            self.bit_count() - self.bit_count() % 8 + 8 <= self.bytes().len(),
        ensures
            r@ == self.bytes().subrange(0, self.bit_count() - self.bit_count() % 8 + 8),
    {
        let n = self.len();
        &self.buf[0..n]
    }
}

} // verus!
