//! The name-building half of temporary-directory creation.
//!
//! The caller draws random bytes (or, failing that, a time-derived seed)
//! from the system and retries creation; how bytes become the six-character
//! suffix, and how the fallback generator turns a seed into bytes, is made
//! and verified here.

use vstd::prelude::*;
use vstd::string::*;

verus! {

/// The suffix character of one byte: the byte reduced to one of the 62
/// letters and digits.
pub open spec fn suffix_chr(v: u8) -> char {
    let w = v % 62;
    if w < 26 {
        ((65 + w) as u32) as char
    } else if w < 52 {
        ((97 + (w - 26)) as u32) as char
    } else {
        ((48 + (w - 52)) as u32) as char
    }
}

/// The suffix the given bytes produce, one character per byte.
pub open spec fn suffix_spec(bytes: Seq<u8>) -> Seq<char> {
    Seq::new(bytes.len(), |i: int| suffix_chr(bytes[i]))
}

/// Builds a temporary-name suffix from the given bytes, one letter or
/// digit per byte.
pub fn suffix_from_bytes(bytes: &[u8]) -> (r: String)
    ensures
        r@ == suffix_spec(bytes@),
{
    let mut out = String::new();
    let mut i: usize = 0;
    while i < bytes.len()
        invariant
            i <= bytes@.len(),
            out@.len() == i,
            forall|j: int| 0 <= j < i ==> out@[j] == suffix_chr(#[trigger] bytes@[j]),
        decreases bytes@.len() - i,
    {
        let w = bytes[i] % 62;
        if w < 26 {
            crate::paths::push_char(&mut out, ((65 + w) as u8) as char);
        } else if w < 52 {
            crate::paths::push_char(&mut out, ((97 + (w - 26)) as u8) as char);
        } else {
            crate::paths::push_char(&mut out, ((48 + (w - 52)) as u8) as char);
        }
        i = i + 1;
    }
    proof {
        assert(out@ =~= suffix_spec(bytes@));
    }
    out
}

/// One step of the xorshift fallback generator.
pub open spec fn xs_step(seed: u128) -> u128 {
    let a = seed ^ (seed << 13);
    let b = a ^ (a >> 7);
    b ^ (b << 17)
}

/// The bytes the fallback generator yields from a seed: each step's low
/// byte, stepping the seed each time.
pub open spec fn fb_go(seed: u128, n: nat) -> Seq<u8>
    decreases n,
{
    if n == 0 {
        Seq::empty()
    } else {
        let s2 = xs_step(seed);
        seq![(s2 & 0xff) as u8] + fb_go(s2, (n - 1) as nat)
    }
}

/// Fills `n` bytes from a time-derived seed when no system randomness is
/// to be had.
pub fn fill_fallback(seed: u128, n: usize) -> (r: Vec<u8>)
    ensures
        r@ == fb_go(seed, n as nat),
{
    let mut out: Vec<u8> = Vec::new();
    let mut s = seed;
    let mut i: usize = 0;
    proof {
        assert(Seq::<u8>::empty() + fb_go(seed, n as nat) =~= fb_go(seed, n as nat));
    }
    while i < n
        invariant
            i <= n,
            out@ + fb_go(s, (n - i) as nat) == fb_go(seed, n as nat),
        decreases n - i,
    {
        let a = s ^ (s << 13);
        let b = a ^ (a >> 7);
        s = b ^ (b << 17);
        proof {
            assert(s & 0xff < 256) by (bit_vector);
        }
        let ghost outg = out@;
        out.push((s & 0xff) as u8);
        proof {
            assert(out@ =~= outg + seq![(s & 0xff) as u8]);
            assert((outg + seq![(s & 0xff) as u8]) + fb_go(s, (n - i - 1) as nat) =~= outg + (seq![
                (s & 0xff) as u8,
            ] + fb_go(s, (n - i - 1) as nat)));
        }
        i = i + 1;
    }
    proof {
        assert(out@ + Seq::<u8>::empty() =~= out@);
    }
    out
}

} // verus!
