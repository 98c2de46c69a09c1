//! Derives a locally administered unicast MAC address from arbitrary bytes,
//! such as a chip's unique device id.
use vstd::prelude::*;

verus! {

/// Number of octets in a MAC address.
pub const MAC_LEN: usize = 6;

/// Folds bytes into a MAC address, round-robin over its octets.
pub struct MacAddrGenerator {
    pos: usize,
    mac: [u8; 6],
}

/// The first octet with the "locally administered" flag set and the
/// "multicast" flag cleared.
pub open spec fn is_private_unicast(octet: u8) -> bool {
    octet & 0b11 == 0b10
}

/// What folding one byte does to the position and the octets.
pub open spec fn feed_step(pos: nat, mac: Seq<u8>, b: u8) -> (nat, Seq<u8>) {
    let mac2 = if pos == 0 {
        mac.update(0, ((mac[0] ^ b) & 0xFC) | 0b10)
    } else {
        mac.update(pos as int, mac[pos as int] ^ b)
    };
    let pos2: nat = if pos + 1 >= MAC_LEN { 0 } else { pos + 1 };
    (pos2, mac2)
}

/// What folding a sequence of bytes, in order, does.
pub open spec fn feed_all(pos: nat, mac: Seq<u8>, bytes: Seq<u8>) -> (nat, Seq<u8>)
    decreases bytes.len(),
{
    if bytes.len() == 0 {
        (pos, mac)
    } else {
        let prev = feed_all(pos, mac, bytes.drop_last());
        feed_step(prev.0, prev.1, bytes.last())
    }
}

/// Folding keeps the position in range and the first octet private unicast.
pub open spec fn feed_state_wf(pos: nat, mac: Seq<u8>) -> bool {
    &&& pos < MAC_LEN
    &&& mac.len() == MAC_LEN
    &&& is_private_unicast(mac[0])
}

proof fn lemma_flag_kept(x: u8, b: u8)
    ensures
        is_private_unicast(((x ^ b) & 0xFC) | 0b10),
{
    assert((((x ^ b) & 0xFC) | 0b10) & 0b11 == 0b10) by (bit_vector);
}

proof fn lemma_feed_step_wf(pos: nat, mac: Seq<u8>, b: u8)
    requires
        feed_state_wf(pos, mac),
    ensures
        feed_state_wf(feed_step(pos, mac, b).0, feed_step(pos, mac, b).1),
{
    lemma_flag_kept(mac[0], b);
}

/// Folding keeps a well-formed state well-formed.
pub proof fn lemma_feed_all_wf(pos: nat, mac: Seq<u8>, bytes: Seq<u8>)
    requires
        feed_state_wf(pos, mac),
    ensures
        feed_state_wf(feed_all(pos, mac, bytes).0, feed_all(pos, mac, bytes).1),
    decreases bytes.len(),
{
    if bytes.len() > 0 {
        lemma_feed_all_wf(pos, mac, bytes.drop_last());
        let prev = feed_all(pos, mac, bytes.drop_last());
        lemma_feed_step_wf(prev.0, prev.1, bytes.last());
    }
}

/// Feeding `a` and then `b` leaves the generator as feeding `a + b` at once
/// does: the address depends on the bytes fed, not on how they were split.
pub proof fn lemma_feed_concat(pos: nat, mac: Seq<u8>, a: Seq<u8>, b: Seq<u8>)
    ensures
        feed_all(pos, mac, a + b) == feed_all(feed_all(pos, mac, a).0, feed_all(pos, mac, a).1, b),
    decreases b.len(),
{
    if b.len() == 0 {
        assert(a + b =~= a);
    } else {
        lemma_feed_concat(pos, mac, a, b.drop_last());
        assert((a + b).drop_last() =~= a + b.drop_last());
        assert((a + b).last() == b.last());
    }
}

/// XOR of the bytes at the indices `i` with `i % 6 == j`.
pub open spec fn xor_column(bytes: Seq<u8>, j: nat) -> u8
    decreases bytes.len(),
{
    if bytes.len() == 0 {
        0
    } else if ((bytes.len() - 1) as nat) % (MAC_LEN as nat) == j {
        xor_column(bytes.drop_last(), j) ^ bytes.last()
    } else {
        xor_column(bytes.drop_last(), j)
    }
}

/// The address that a new generator derives from `bytes`: octet `j` is the
/// XOR of every sixth byte starting at `j`, and the flag bits of the first
/// octet are those of a private unicast address.
pub open spec fn derived_address(bytes: Seq<u8>) -> Seq<u8> {
    seq![
        (xor_column(bytes, 0) & 0xFC) | 0b10,
        xor_column(bytes, 1),
        xor_column(bytes, 2),
        xor_column(bytes, 3),
        xor_column(bytes, 4),
        xor_column(bytes, 5),
    ]
}

proof fn lemma_refold_first(x: u8, b: u8)
    ensures
        ((((x & 0xFC) | 0b10) ^ b) & 0xFC) | 0b10 == ((x ^ b) & 0xFC) | 0b10,
{
    assert(((((x & 0xFC) | 0b10) ^ b) & 0xFC) | 0b10 == ((x ^ b) & 0xFC) | 0b10) by (bit_vector);
}

/// A new generator fed with `bytes` stands at octet `bytes.len() % 6` and
/// holds `derived_address(bytes)`.
pub proof fn lemma_derived_address(bytes: Seq<u8>)
    ensures
        feed_all(0, seq![0x02u8, 0u8, 0u8, 0u8, 0u8, 0u8], bytes) == (
            (bytes.len() % (MAC_LEN as nat)) as nat,
            derived_address(bytes),
        ),
    decreases bytes.len(),
{
    let init = seq![0x02u8, 0u8, 0u8, 0u8, 0u8, 0u8];
    if bytes.len() == 0 {
        assert(0x02u8 == (0u8 & 0xFC) | 0b10) by (bit_vector);
        assert(derived_address(bytes) =~= init);
    } else {
        let prefix = bytes.drop_last();
        let b = bytes.last();
        lemma_derived_address(prefix);
        let n = prefix.len();
        let p = n % (MAC_LEN as nat);
        let prev = derived_address(prefix);
        if p == 0 {
            lemma_refold_first(xor_column(prefix, 0), b);
        }
        assert(feed_step(p as nat, prev, b).1 =~= derived_address(bytes));
    }
}

proof fn lemma_refold_twice(x: u8, b: u8)
    requires
        is_private_unicast(x),
    ensures
        ((((((x ^ b) & 0xFC) | 0b10) ^ b) & 0xFC) | 0b10) == x,
{
    assert(x & 0b11 == 0b10 ==> ((((((x ^ b) & 0xFC) | 0b10) ^ b) & 0xFC) | 0b10) == x)
        by (bit_vector);
}

/// The octets after feeding one byte into each, starting at the first.
spec fn block_fed(mac: Seq<u8>, block: Seq<u8>) -> Seq<u8> {
    seq![
        ((mac[0] ^ block[0]) & 0xFC) | 0b10,
        mac[1] ^ block[1],
        mac[2] ^ block[2],
        mac[3] ^ block[3],
        mac[4] ^ block[4],
        mac[5] ^ block[5],
    ]
}

proof fn lemma_feed_block(mac: Seq<u8>, block: Seq<u8>)
    requires
        mac.len() == MAC_LEN,
        block.len() == MAC_LEN,
    ensures
        feed_all(0, mac, block) == (0nat, block_fed(mac, block)),
{
    let p0 = block.subrange(0, 0);
    let p1 = block.subrange(0, 1);
    let p2 = block.subrange(0, 2);
    let p3 = block.subrange(0, 3);
    let p4 = block.subrange(0, 4);
    let p5 = block.subrange(0, 5);
    assert(p1.drop_last() =~= p0);
    assert(p2.drop_last() =~= p1);
    assert(p3.drop_last() =~= p2);
    assert(p4.drop_last() =~= p3);
    assert(p5.drop_last() =~= p4);
    assert(block.drop_last() =~= p5);
    let m1 = mac.update(0, ((mac[0] ^ block[0]) & 0xFC) | 0b10);
    let m2 = m1.update(1, mac[1] ^ block[1]);
    let m3 = m2.update(2, mac[2] ^ block[2]);
    let m4 = m3.update(3, mac[3] ^ block[3]);
    let m5 = m4.update(4, mac[4] ^ block[4]);
    let m6 = m5.update(5, mac[5] ^ block[5]);
    assert(feed_all(0, mac, p0) == (0nat, mac));
    assert(feed_all(0, mac, p1) == (1nat, m1));
    assert(feed_all(0, mac, p2) == (2nat, m2));
    assert(feed_all(0, mac, p3) == (3nat, m3));
    assert(feed_all(0, mac, p4) == (4nat, m4));
    assert(feed_all(0, mac, p5) == (5nat, m5));
    assert(feed_all(0, mac, block) == (0nat, m6));
    assert(m6 =~= block_fed(mac, block));
}

/// Bytes are combined by XOR: feeding the same six bytes twice from the
/// first octet gives the address back unchanged.
pub proof fn lemma_feed_twice_cancels(mac: Seq<u8>, block: Seq<u8>)
    requires
        feed_state_wf(0, mac),
        block.len() == MAC_LEN,
    ensures
        feed_all(0, mac, block + block) == (0nat, mac),
{
    lemma_feed_concat(0, mac, block, block);
    lemma_feed_block(mac, block);
    let once = block_fed(mac, block);
    lemma_feed_block(once, block);
    lemma_refold_twice(mac[0], block[0]);
    let twice = block_fed(once, block);
    assert forall|j: int| 1 <= j < 6 implies twice[j] == mac[j] by {
        let x = mac[j];
        let b = block[j];
        assert((x ^ b) ^ b == x) by (bit_vector);
    }
    assert(twice =~= mac);
}

impl MacAddrGenerator {
    #[verifier::type_invariant]
    spec fn inv(self) -> bool {
        feed_state_wf(self.pos as nat, self.mac@)
    }

    /// The octet that the next byte is folded into.
    pub closed spec fn position(&self) -> nat {
        self.pos as nat
    }

    /// The address folded so far.
    pub closed spec fn octets(&self) -> Seq<u8> {
        self.mac@
    }

    /// A generator at the first octet, with the address `02:00:00:00:00:00`.
    pub fn new() -> (r: Self)
        ensures
            r.position() == 0,
            r.octets() == seq![0x02u8, 0u8, 0u8, 0u8, 0u8, 0u8],
    {
        let mac: [u8; 6] = [0x02, 0, 0, 0, 0, 0];
        assert(mac@ =~= seq![0x02u8, 0u8, 0u8, 0u8, 0u8, 0u8]);
        assert(0x02u8 & 0b11 == 0b10) by (bit_vector);
        assert(mac@[0] == 0x02u8);
        MacAddrGenerator { pos: 0, mac }
    }

    /// XOR every byte of `src` into the address, one octet after the other;
    /// the flag bits of the first octet stay those of a private unicast
    /// address.
    pub fn feed(&mut self, src: &[u8])
        ensures
            (final(self).position(), final(self).octets()) == feed_all(
                old(self).position(),
                old(self).octets(),
                src@,
            ),
    {
        let mut k: usize = 0;
        proof {
            use_type_invariant(&*self);
        }
        assert(src@.subrange(0, 0) =~= Seq::<u8>::empty());
        while k < src.len()
            invariant
                0 <= k <= src@.len(),
                (self.pos as nat, self.mac@) == feed_all(
                    old(self).pos as nat,
                    old(self).mac@,
                    src@.subrange(0, k as int),
                ),
                feed_state_wf(self.pos as nat, self.mac@),
            decreases src@.len() - k,
        {
            let b = src[k];
            let ghost before_pos = self.pos as nat;
            let ghost before_mac = self.mac@;
            proof {
                lemma_feed_step_wf(before_pos, before_mac, b);
            }
            let mut mac = self.mac;
            let mut pos = self.pos;
            if pos == 0 {
                // Retain flag for private MAC addresses
                mac[0] = ((mac[0] ^ b) & 0xFC) | 0b10;
            } else {
                mac[pos] = mac[pos] ^ b;
            }
            pos = pos + 1;
            if pos >= mac.len() {
                pos = 0;
            }
            assert(mac@ =~= feed_step(before_pos, before_mac, b).1);
            self.mac = mac;
            self.pos = pos;
            assert(src@.subrange(0, k + 1).drop_last() =~= src@.subrange(0, k as int));
            k = k + 1;
        }
        assert(src@.subrange(0, src@.len() as int) =~= src@);
    }

    /// The address; its first octet always marks a locally administered
    /// unicast address.
    pub fn into_addr(self) -> (r: [u8; 6])
        ensures
            r@ == self.octets(),
            is_private_unicast(r[0]),
    {
        proof {
            use_type_invariant(&self);
        }
        self.mac
    }
}

} // verus!
