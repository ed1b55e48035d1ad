use vstd::prelude::*;
use crate::decode::decompress;
use crate::encode::compress;
use crate::tokens::PrsError;

verus! {

/// The round-trip law: decompressing what `compress` produced gives back
/// exactly the input bytes; in particular `decompress` cannot fail on such
/// a stream.
pub fn round_trip(input: Vec<u8>) -> (r: Vec<u8>)
    ensures
        r@ == input@,
{
    let c = compress(input);
    match decompress(c) {
        Ok(v) => v,
        Err(_) => {
            proof {
                assert(false);
            }
            vstd::pervasive::unreached()
        },
    }
}

/// The truncation law: a compressed stream with its last byte cut off is
/// rejected as truncated, never decoded to wrong bytes.
pub fn truncation_detected(input: Vec<u8>) -> (e: PrsError)
    ensures
        e == PrsError::TruncatedStream,
{
    let mut c = compress(input);
    let ghost full = c@;
    c.pop();
    proof {
        assert(c@ =~= full.take(full.len() - 1));
    }
    match decompress(c) {
        Err(e) => e,
        Ok(_) => {
            proof {
                assert(false);
            }
            vstd::pervasive::unreached()
        },
    }
}

} // verus!
