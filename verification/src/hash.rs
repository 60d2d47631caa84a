//! FNV-1a, 64 bits: a hash that is the same in every run, so that it can be kept.

use vstd::prelude::*;

use crate::text;

verus! {

/// One more byte.
pub open spec fn fnv_step(h: u64, b: u8) -> u64 {
    (h ^ (b as u64)).wrapping_mul(0x100000001b3)
}

/// The hash of some bytes.
pub open spec fn fnv(bytes: Seq<u8>) -> u64
    decreases bytes.len(),
{
    if bytes.len() == 0 {
        0xcbf29ce484222325
    } else {
        fnv_step(fnv(bytes.drop_last()), bytes.last())
    }
}

/// The hash of some bytes, as sixteen hexadecimal digits.
pub open spec fn fnv_text(bytes: Seq<u8>) -> Seq<char> {
    text::hex_digits(fnv(bytes) as nat, 16)
}

/// The hash of some bytes, as sixteen hexadecimal digits.
pub fn hash_text(bytes: &[u8]) -> (r: String)
    ensures
        r@ == fnv_text(bytes@),
{
    let mut h: u64 = 0xcbf29ce484222325;
    let mut i: usize = 0;
    assert(bytes@.take(0) =~= Seq::<u8>::empty());
    while i < bytes.len()
        invariant
            i <= bytes@.len(),
            h == fnv(bytes@.take(i as int)),
        decreases bytes@.len() - i,
    {
        assert(bytes@.take(i + 1).drop_last() =~= bytes@.take(i as int));
        assert(bytes@.take(i + 1).last() == bytes@[i as int]);
        h = (h ^ (bytes[i] as u64)).wrapping_mul(0x100000001b3);
        i = i + 1;
    }
    assert(bytes@.take(bytes@.len() as int) =~= bytes@);
    let mut out: String = String::new();
    text::push_hex(&mut out, h, 16);
    assert(out@ =~= text::hex_digits(h as nat, 16));
    out
}

} // verus!
