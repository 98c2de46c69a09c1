//! Colors for a stripe picked from the SHA-1 hash of a line of text.
use vstd::prelude::*;
use sha1::Digest;

verus! {

/// The SHA-1 digest of `data`, as computed by the `sha-1` crate.
pub uninterp spec fn sha1_digest(data: Seq<u8>) -> Seq<u8>;

/// Calls `Digest::digest` of `sha1::Sha1` (crate `sha-1`).  The contract
/// only names the 20 byte result as `sha1_digest` of the input bytes.
#[verifier::external_body]
fn sha1(data: &[u8]) -> (r: [u8; 20])
    ensures
        r@ == sha1_digest(data@),
{
    ::sha1::Sha1::digest(data).into()
}

/// The index of the first hash byte that colors LED `x` of `leds`.
pub open spec fn hash_index(x: int, leds: int) -> int {
    3 * ((20int / 3) * x / leds)
}

/// The color of LED `x` of `leds` for `hash`: two bytes from the hash
/// window of that LED, and the blue taken from byte 3 for every LED.
pub open spec fn hash_color(hash: Seq<u8>, x: int, leds: int) -> [u8; 3] {
    let i = hash_index(x, leds);
    [hash[i], hash[i + 1], hash[1int + 2]]
}

/// The colors of all `leds` LEDs for `hash`.
pub open spec fn hash_colors(hash: Seq<u8>, leds: nat) -> Seq<[u8; 3]> {
    Seq::new(leds, |x: int| hash_color(hash, x, leds as int))
}

proof fn lemma_hash_index_bound(x: int, leds: int)
    requires
        0 <= x < leds,
    ensures
        0 <= hash_index(x, leds) <= 15,
{
    assert(0 <= 6 * x / leds < 6) by (nonlinear_arith)
        requires
            0 <= x < leds,
    ;
}

/// The stripe is cut into six parts of equal length: LED `x` of `leds`
/// takes red and green from bytes `3k` and `3k + 1` of the hash, where `k`
/// is the part it falls in (`k * leds <= 6 * x < (k + 1) * leds`); its blue
/// is byte 3.
pub proof fn lemma_hash_parts(hash: Seq<u8>, x: int, leds: int, k: int)
    requires
        0 <= x < leds,
        0 <= k,
        k * leds <= 6 * x < (k + 1) * leds,
    ensures
        k < 6,
        hash_color(hash, x, leds) == [hash[3 * k], hash[3 * k + 1], hash[3]],
{
    assert(6 * x / leds == k) by (nonlinear_arith)
        requires
            0 <= x < leds,
            0 <= k,
            k * leds <= 6 * x < (k + 1) * leds,
    ;
    assert(k < 6) by (nonlinear_arith)
        requires
            0 <= x < leds,
            0 <= k,
            k * leds <= 6 * x,
    ;
}

/// Spread the hash over the stripe: the stripe is cut into 6 equal parts,
/// part `k` takes its red and green from bytes `3k` and `3k + 1`.
pub fn hash_to_colors(hash: &[u8; 20], leds: usize) -> (r: Vec<[u8; 3]>)
    requires
        6 * leds <= usize::MAX,
    ensures
        r@ == hash_colors(hash@, leds as nat),
{
    let mut result: Vec<[u8; 3]> = Vec::new();
    let mut x: usize = 0;
    while x < leds
        invariant
            x <= leds,
            6 * leds <= usize::MAX,
            result@ == hash_colors(hash@, leds as nat).subrange(0, x as int),
        decreases leds - x,
    {
        proof {
            lemma_hash_index_bound(x as int, leds as int);
        }
        let i = 3 * ((hash.len() / 3) * x / leds);
        let rgb: [u8; 3] = [hash[i], hash[i + 1], hash[1 + 2]];
        result.push(rgb);
        x = x + 1;
        assert(result@ =~= hash_colors(hash@, leds as nat).subrange(0, x as int));
    }
    assert(result@ =~= hash_colors(hash@, leds as nat));
    result
}

/// The colors that the stripe shows for a line of text.
pub fn line_colors(line: &[u8], leds: usize) -> (r: Vec<[u8; 3]>)
    requires
        6 * leds <= usize::MAX,
    ensures
        r@ == hash_colors(sha1_digest(line@), leds as nat),
{
    let hash = sha1(line);
    hash_to_colors(&hash, leds)
}

} // verus!
