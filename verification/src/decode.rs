use vstd::prelude::*;
use crate::tokens::{PrsError, spec_copy};

verus! {

// The decoder state is a cursor into the stream: `pos` is the next byte to
// read, `flag` holds the control bits of the current flag byte that are not
// yet consumed (low bit first), `nb` how many of them are left. A flag byte
// is fetched lazily, exactly when a control bit is needed and none is left.

/// Read one control bit. Consumes a fresh flag byte from the stream when the
/// current one is exhausted.
pub open spec fn rd_bit(s: Seq<u8>, pos: int, flag: int, nb: int) -> Option<(bool, int, int, int)> {
    if nb <= 0 {
        if 0 <= pos < s.len() {
            Some(((s[pos] as int) % 2 == 1, pos + 1, (s[pos] as int) / 2, 7))
        } else {
            None
        }
    } else {
        Some((flag % 2 == 1, pos, flag / 2, nb - 1))
    }
}

/// Read one payload byte at the cursor.
pub open spec fn rd_byte(s: Seq<u8>, pos: int) -> Option<(u8, int)> {
    if 0 <= pos < s.len() {
        Some((s[pos], pos + 1))
    } else {
        None
    }
}

/// The PRS stream format, as one step-by-step state machine: control bit 1
/// announces a literal byte; bits 0,1 a long copy (a little-endian 16-bit
/// word holding a 13-bit distance and a 3-bit length field, length field 0
/// escaping to an extra length byte, the whole word 0 marking the end of the
/// stream); bits 0,0 a short copy (two more control bits give the length,
/// one payload byte the distance). Runs out of input mid-token: the stream
/// is truncated. A copy behind the start of the output: an invalid
/// reference.
pub open spec fn spec_decode_from(
    s: Seq<u8>,
    pos: int,
    flag: int,
    nb: int,
    out: Seq<u8>,
) -> Result<Seq<u8>, PrsError>
    decreases 8 * (s.len() - pos) + nb,
        when 0 <= pos <= s.len() && 0 <= nb <= 8
{
    match rd_bit(s, pos, flag, nb) {
        None => Err(PrsError::TruncatedStream),
        Some((b1, p1, f1, n1)) => {
            if b1 {
                match rd_byte(s, p1) {
                    None => Err(PrsError::TruncatedStream),
                    Some((x, p2)) => spec_decode_from(s, p2, f1, n1, out.push(x)),
                }
            } else {
                match rd_bit(s, p1, f1, n1) {
                    None => Err(PrsError::TruncatedStream),
                    Some((b2, p2, f2, n2)) => {
                        if b2 {
                            match rd_byte(s, p2) {
                                None => Err(PrsError::TruncatedStream),
                                Some((lo, p3)) => match rd_byte(s, p3) {
                                    None => Err(PrsError::TruncatedStream),
                                    Some((hi, p4)) => {
                                        let v = lo as int + 256 * (hi as int);
                                        if v == 0 {
                                            Ok(out)
                                        } else {
                                            let dist = 8192 - v / 8;
                                            if v % 8 == 0 {
                                                match rd_byte(s, p4) {
                                                    None => Err(PrsError::TruncatedStream),
                                                    Some((sb, p5)) => if dist > out.len() {
                                                        Err(PrsError::InvalidReference)
                                                    } else {
                                                        spec_decode_from(
                                                            s,
                                                            p5,
                                                            f2,
                                                            n2,
                                                            spec_copy(out, dist, sb as int + 1),
                                                        )
                                                    },
                                                }
                                            } else {
                                                if dist > out.len() {
                                                    Err(PrsError::InvalidReference)
                                                } else {
                                                    spec_decode_from(
                                                        s,
                                                        p4,
                                                        f2,
                                                        n2,
                                                        spec_copy(out, dist, v % 8 + 2),
                                                    )
                                                }
                                            }
                                        }
                                    },
                                },
                            }
                        } else {
                            match rd_bit(s, p2, f2, n2) {
                                None => Err(PrsError::TruncatedStream),
                                Some((b3, p3, f3, n3)) => match rd_bit(s, p3, f3, n3) {
                                    None => Err(PrsError::TruncatedStream),
                                    Some((b4, p4, f4, n4)) => match rd_byte(s, p4) {
                                        None => Err(PrsError::TruncatedStream),
                                        Some((ob, p5)) => {
                                            let dist = 256 - ob as int;
                                            let len = 2 + 2 * (if b3 {
                                                1int
                                            } else {
                                                0int
                                            }) + (if b4 {
                                                1int
                                            } else {
                                                0int
                                            });
                                            if dist > out.len() {
                                                Err(PrsError::InvalidReference)
                                            } else {
                                                spec_decode_from(
                                                    s,
                                                    p5,
                                                    f4,
                                                    n4,
                                                    spec_copy(out, dist, len),
                                                )
                                            }
                                        },
                                    },
                                },
                            }
                        }
                    },
                }
            }
        },
    }
}

/// What a whole PRS stream decodes to: the state machine run from the start
/// of the stream with no control bits in hand and an empty output.
pub open spec fn spec_decompress(s: Seq<u8>) -> Result<Seq<u8>, PrsError> {
    spec_decode_from(s, 0, 0, 0, Seq::empty())
}

/// The view of an executable decode result at the level of the model.
pub open spec fn decode_result_view(r: Result<Vec<u8>, PrsError>) -> Result<Seq<u8>, PrsError> {
    match r {
        Ok(v) => Ok(v@),
        Err(e) => Err(e),
    }
}

/// Reads one control bit, advancing the cursor as `rd_bit` says.
fn next_bit(s: &Vec<u8>, pos: &mut usize, flag: &mut u8, nb: &mut u8) -> (r: Option<bool>)
    requires
        *old(pos) <= s@.len(),
        *old(nb) <= 8,
    ensures
        match r {
            Some(b) => rd_bit(s@, *old(pos) as int, *old(flag) as int, *old(nb) as int) == Some(
                (b, *final(pos) as int, *final(flag) as int, *final(nb) as int),
            ) && *final(pos) <= s@.len() && *final(nb) <= 7,
            None => rd_bit(s@, *old(pos) as int, *old(flag) as int, *old(nb) as int) is None
                && *final(pos) == *old(pos) && *final(flag) == *old(flag) && *final(nb) == *old(nb),
        },
{
    if *nb == 0 {
        if *pos < s.len() {
            let byte = s[*pos];
            *pos = *pos + 1;
            *flag = byte / 2;
            *nb = 7;
            Some(byte % 2 == 1)
        } else {
            None
        }
    } else {
        let b = *flag % 2 == 1;
        *flag = *flag / 2;
        *nb = *nb - 1;
        Some(b)
    }
}

/// Reads one payload byte, advancing the cursor as `rd_byte` says.
fn next_byte(s: &Vec<u8>, pos: &mut usize) -> (r: Option<u8>)
    requires
        *old(pos) <= s@.len(),
    ensures
        match r {
            Some(x) => rd_byte(s@, *old(pos) as int) == Some((x, *final(pos) as int)) && *final(pos) <= s@.len(),
            None => rd_byte(s@, *old(pos) as int) is None && *final(pos) == *old(pos),
        },
{
    if *pos < s.len() {
        let x = s[*pos];
        *pos = *pos + 1;
        Some(x)
    } else {
        None
    }
}

/// Decode a PRS stream back into the bytes it compresses, exactly as the
/// format's state machine reads it: `Ok` with the original bytes when the
/// stream is well formed up to its end marker, the error the format
/// prescribes otherwise.
pub fn decompress(data: Vec<u8>) -> (r: Result<Vec<u8>, PrsError>)
    ensures
        decode_result_view(r) == spec_decompress(data@),
{
    let mut pos: usize = 0;
    let mut flag: u8 = 0;
    let mut nb: u8 = 0;
    let mut out: Vec<u8> = Vec::new();
    loop
        invariant
            pos <= data@.len(),
            nb <= 8,
            spec_decode_from(data@, pos as int, flag as int, nb as int, out@) == spec_decompress(
                data@,
            ),
        decreases 8 * (data@.len() - pos) + nb,
    {
        match next_bit(&data, &mut pos, &mut flag, &mut nb) {
            None => {
                return Err(PrsError::TruncatedStream);
            },
            Some(true) => {
                match next_byte(&data, &mut pos) {
                    None => {
                        return Err(PrsError::TruncatedStream);
                    },
                    Some(x) => {
                        out.push(x);
                    },
                }
            },
            Some(false) => {
                match next_bit(&data, &mut pos, &mut flag, &mut nb) {
                    None => {
                        return Err(PrsError::TruncatedStream);
                    },
                    Some(true) => {
                        // long copy, or the end marker
                        let lo = match next_byte(&data, &mut pos) {
                            None => {
                                return Err(PrsError::TruncatedStream);
                            },
                            Some(x) => x,
                        };
                        let hi = match next_byte(&data, &mut pos) {
                            None => {
                                return Err(PrsError::TruncatedStream);
                            },
                            Some(x) => x,
                        };
                        let v: u32 = lo as u32 + 256 * (hi as u32);
                        if v == 0 {
                            return Ok(out);
                        }
                        let dist: usize = 8192 - (v / 8) as usize;
                        let len: usize = if v % 8 == 0 {
                            match next_byte(&data, &mut pos) {
                                None => {
                                    return Err(PrsError::TruncatedStream);
                                },
                                Some(sb) => sb as usize + 1,
                            }
                        } else {
                            (v % 8) as usize + 2
                        };
                        if dist > out.len() {
                            return Err(PrsError::InvalidReference);
                        }
                        copy_back(&mut out, dist, len);
                    },
                    Some(false) => {
                        // short copy
                        let b3 = match next_bit(&data, &mut pos, &mut flag, &mut nb) {
                            None => {
                                return Err(PrsError::TruncatedStream);
                            },
                            Some(b) => b,
                        };
                        let b4 = match next_bit(&data, &mut pos, &mut flag, &mut nb) {
                            None => {
                                return Err(PrsError::TruncatedStream);
                            },
                            Some(b) => b,
                        };
                        let ob = match next_byte(&data, &mut pos) {
                            None => {
                                return Err(PrsError::TruncatedStream);
                            },
                            Some(x) => x,
                        };
                        let dist: usize = 256 - ob as usize;
                        let len: usize = 2 + 2 * (if b3 {
                            1usize
                        } else {
                            0usize
                        }) + (if b4 {
                            1usize
                        } else {
                            0usize
                        });
                        if dist > out.len() {
                            return Err(PrsError::InvalidReference);
                        }
                        copy_back(&mut out, dist, len);
                    },
                }
            },
        }
    }
}

/// Replays a back-reference byte by byte, so that a copy longer than its
/// distance repeats the bytes it has just written.
fn copy_back(out: &mut Vec<u8>, dist: usize, len: usize)
    requires
        1 <= dist <= old(out)@.len(),
    ensures
        final(out)@ == spec_copy(old(out)@, dist as int, len as int),
{
    let mut k: usize = 0;
    while k < len
        invariant
            k <= len,
            1 <= dist <= out@.len(),
            out@.len() == old(out)@.len() + k,
            spec_copy(old(out)@, dist as int, len as int) == spec_copy(
                out@,
                dist as int,
                (len - k) as int,
            ),
        decreases len - k,
    {
        let b = out[out.len() - dist];
        out.push(b);
        k = k + 1;
    }
}

} // verus!
