use vstd::prelude::*;
use crate::bitmath::{two_pow, lemma_two_pow_pos, lemma_two_pow_values};
use crate::tokens::{PrsError, Token, replay, replay_one, token_valid, tokens_valid};
use crate::tokens::lemma_spec_copy_len;
use crate::decode::{rd_bit, rd_byte, spec_decode_from};
use vstd::arithmetic::div_mod::{lemma_fundamental_div_mod, lemma_fundamental_div_mod_converse};

verus! {

/// The encoder's emission state. `done` holds the bytes already fixed in the
/// stream; `bitbuf` the control bits gathered for the next flag byte, low
/// bit first, so its value stays below `two_pow(nbits)`; `pend` the payload
/// bytes whose control bits sit in `bitbuf`, owed to the stream right after
/// that flag byte.
#[verifier::ext_equal]
pub ghost struct EncState {
    pub done: Seq<u8>,
    pub bitbuf: int,
    pub nbits: int,
    pub pend: Seq<u8>,
}

pub open spec fn st_wf(st: EncState) -> bool {
    &&& 0 <= st.bitbuf < two_pow(st.nbits)
    &&& 0 <= st.nbits <= 8
    &&& (st.pend.len() > 0 ==> st.nbits >= 1)
}

pub open spec fn st_init() -> EncState {
    EncState { done: Seq::empty(), bitbuf: 0, nbits: 0, pend: Seq::empty() }
}

/// Once eight control bits are gathered, the flag byte and the payloads
/// under it leave for the stream, before the next control bit is placed.
pub open spec fn st_flush_if_full(st: EncState) -> EncState {
    if st.nbits == 8 {
        EncState {
            done: st.done + seq![st.bitbuf as u8] + st.pend,
            bitbuf: 0,
            nbits: 0,
            pend: Seq::empty(),
        }
    } else {
        st
    }
}

pub open spec fn bit_val(b: bool) -> int {
    if b {
        1
    } else {
        0
    }
}

pub open spec fn st_push_bit(st: EncState, b: bool) -> EncState {
    let s = st_flush_if_full(st);
    EncState {
        done: s.done,
        bitbuf: s.bitbuf + bit_val(b) * two_pow(s.nbits),
        nbits: s.nbits + 1,
        pend: s.pend,
    }
}

pub open spec fn st_push_byte(st: EncState, x: u8) -> EncState {
    EncState { done: st.done, bitbuf: st.bitbuf, nbits: st.nbits, pend: st.pend.push(x) }
}

/// Whether a copy travels in the short form: one payload byte for the
/// distance, the length in two control bits.
pub open spec fn short_form(dist: int, len: int) -> bool {
    dist <= 255 && len <= 5
}

/// How the encoder lays one token into the stream; it mirrors, bit for bit,
/// what `spec_decode_from` reads.
pub open spec fn st_push_token(st: EncState, t: Token) -> EncState {
    match t {
        Token::Literal(b) => st_push_byte(st_push_bit(st, true), b),
        Token::Copy { dist, len } => {
            let d = dist as int;
            let l = len as int;
            if short_form(d, l) {
                let sz = l - 2;
                st_push_byte(
                    st_push_bit(
                        st_push_bit(st_push_bit(st_push_bit(st, false), false), sz >= 2),
                        sz % 2 == 1,
                    ),
                    (256 - d) as u8,
                )
            } else {
                let v = (8192 - d) * 8 + (if l <= 9 {
                    l - 2
                } else {
                    0
                });
                let st2 = st_push_byte(
                    st_push_byte(st_push_bit(st_push_bit(st, false), true), (v % 256) as u8),
                    (v / 256) as u8,
                );
                if l <= 9 {
                    st2
                } else {
                    st_push_byte(st2, (l - 1) as u8)
                }
            }
        },
    }
}

/// The end marker: the long-copy announcement with a zero 16-bit word.
pub open spec fn st_push_end(st: EncState) -> EncState {
    st_push_byte(st_push_byte(st_push_bit(st_push_bit(st, false), true), 0u8), 0u8)
}

/// The last flag byte and the payloads under it leave for the stream even
/// though fewer than eight bits are gathered; the spare high bits stay zero.
pub open spec fn st_finish(st: EncState) -> Seq<u8> {
    st.done + seq![st.bitbuf as u8] + st.pend
}

pub open spec fn st_push_tokens(st: EncState, ts: Seq<Token>) -> EncState
    decreases ts.len(),
{
    if ts.len() == 0 {
        st
    } else {
        st_push_tokens(st_push_token(st, ts[0]), ts.drop_first())
    }
}

/// The whole stream an encoder in state `st` produces for the tokens `ts`:
/// the tokens, the end marker, and the final flush.
pub open spec fn assemble(st: EncState, ts: Seq<Token>) -> Seq<u8> {
    st_finish(st_push_end(st_push_tokens(st, ts)))
}

// --- where the decoder's cursor stands while the encoder is in state `st` ---

/// The decoder has consumed every emitted byte, and, when control bits are
/// in flight, also the flag byte they will land in and the payloads owed
/// under it.
pub open spec fn dec_pos(st: EncState) -> int {
    if st.nbits == 0 {
        st.done.len() as int
    } else {
        st.done.len() as int + 1 + st.pend.len() as int
    }
}

pub open spec fn dec_flag(st: EncState, s: Seq<u8>) -> int {
    if st.nbits == 0 {
        0
    } else {
        (s[st.done.len() as int] as int) / two_pow(st.nbits)
    }
}

pub open spec fn dec_nb(st: EncState) -> int {
    if st.nbits == 0 {
        0
    } else {
        8 - st.nbits
    }
}

/// The stream `s` completes the state `st`: the emitted bytes are a prefix
/// of `s`, and where control bits are in flight, the flag byte they land in
/// carries them in its low bits and is followed by the owed payloads.
pub open spec fn corresponds(st: EncState, s: Seq<u8>) -> bool {
    &&& st_wf(st)
    &&& dec_pos(st) <= s.len()
    &&& s.subrange(0, st.done.len() as int) == st.done
    &&& (st.nbits > 0 ==> {
        &&& (s[st.done.len() as int] as int) % two_pow(st.nbits) == st.bitbuf
        &&& s.subrange(st.done.len() as int + 1, st.done.len() as int + 1 + st.pend.len() as int) == st.pend
    })
}

proof fn lemma_prefix_parts(s: Seq<u8>, a: Seq<u8>, x: u8, b: Seq<u8>)
    requires
        a.len() + 1 + b.len() <= s.len(),
        s.subrange(0, a.len() as int + 1 + b.len() as int) == a + seq![x] + b,
    ensures
        s.subrange(0, a.len() as int) == a,
        s[a.len() as int] == x,
        s.subrange(a.len() as int + 1, a.len() as int + 1 + b.len() as int) == b,
{
    let p = a + seq![x] + b;
    assert forall|i: int| 0 <= i < p.len() implies s[i] == p[i] by {
        assert(s.subrange(0, p.len() as int)[i] == s[i]);
        assert(s.subrange(0, p.len() as int)[i] == p[i]);
    }
    assert(s.subrange(0, a.len() as int) =~= a);
    assert(p[a.len() as int] == x);
    assert(s.subrange(a.len() as int + 1, a.len() as int + 1 + b.len() as int) =~= b);
}

/// Shortening a completing stream keeps it completing, as long as it still
/// covers the decoder's cursor.
pub proof fn lemma_corresponds_take(st: EncState, s: Seq<u8>, m: int)
    requires
        corresponds(st, s),
        dec_pos(st) <= m <= s.len(),
    ensures
        corresponds(st, s.take(m)),
        dec_flag(st, s.take(m)) == dec_flag(st, s),
{
    let t = s.take(m);
    assert(t.subrange(0, st.done.len() as int) =~= s.subrange(0, st.done.len() as int));
    if st.nbits > 0 {
        assert(st.done.len() < dec_pos(st));
        assert(t[st.done.len() as int] == s[st.done.len() as int]);
        assert(t.subrange(st.done.len() as int + 1, st.done.len() as int + 1 + st.pend.len() as int)
            =~= s.subrange(st.done.len() as int + 1, st.done.len() as int + 1 + st.pend.len() as int));
    }
}

pub proof fn lemma_push_bit_wf(st: EncState, b: bool)
    requires
        st_wf(st),
    ensures
        st_wf(st_push_bit(st, b)),
        st_push_bit(st, b).nbits >= 1,
        dec_pos(st) <= dec_pos(st_push_bit(st, b)),
{
    let f = st_flush_if_full(st);
    lemma_two_pow_pos(f.nbits);
    lemma_two_pow_values();
}

pub proof fn lemma_push_byte_wf(st: EncState, x: u8)
    requires
        st_wf(st),
        st.nbits >= 1,
    ensures
        st_wf(st_push_byte(st, x)),
        dec_pos(st_push_byte(st, x)) == dec_pos(st) + 1,
{
}

/// Un-doing one control bit: if the stream completes the state after the
/// push, it also completes the state before it, and the decoder's next
/// control bit read yields exactly the pushed bit, moving its cursor to the
/// pushed state's cursor.
pub proof fn lemma_push_bit(st: EncState, b: bool, s: Seq<u8>)
    requires
        st_wf(st),
        corresponds(st_push_bit(st, b), s),
    ensures
        corresponds(st, s),
        rd_bit(s, dec_pos(st), dec_flag(st, s), dec_nb(st)) == Some(
            (
                b,
                dec_pos(st_push_bit(st, b)),
                dec_flag(st_push_bit(st, b), s),
                dec_nb(st_push_bit(st, b)),
            ),
        ),
{
    let st1 = st_push_bit(st, b);
    let bv = bit_val(b);
    lemma_two_pow_values();
    if st.nbits < 8 {
        let n = st.nbits;
        let p = two_pow(n);
        lemma_two_pow_pos(n);
        assert(st1.done =~= st.done);
        assert(st1.pend =~= st.pend);
        let ff = s[st.done.len() as int] as int;
        assert(two_pow(n + 1) == 2 * p);
        assert(ff % (2 * p) == st.bitbuf + bv * p);
        let q = ff / (2 * p);
        lemma_fundamental_div_mod(ff, 2 * p);
        assert(ff == (2 * q + bv) * p + st.bitbuf) by (nonlinear_arith)
            requires
                ff == (2 * p) * q + st.bitbuf + bv * p,
        ;
        lemma_fundamental_div_mod_converse(ff, p, 2 * q + bv, st.bitbuf);
        assert(ff / p == 2 * q + bv);
        assert(ff % p == st.bitbuf);
        lemma_fundamental_div_mod_converse(2 * q + bv, 2, q, bv);
        assert((2 * q + bv) / 2 == q);
        assert((2 * q + bv) % 2 == bv);
        if n == 0 {
            // the bit opens a fresh flag byte, which the decoder now loads
            assert(st.bitbuf == 0);
            assert(st.pend.len() == 0);
            assert(dec_pos(st) == st.done.len());
            assert(dec_pos(st1) == st.done.len() + 1);
            assert(ff % 2 == bv);
            assert(ff / 2 == q);
        } else {
            assert(dec_pos(st) == dec_pos(st1));
            assert(dec_flag(st, s) == ff / p);
            assert(dec_flag(st1, s) == ff / (2 * p));
        }
    } else {
        // the eight gathered bits flush first; the pushed bit opens the next
        // flag byte
        let fl = st_flush_if_full(st);
        assert(fl.done == st.done + seq![st.bitbuf as u8] + st.pend);
        lemma_prefix_parts(s, st.done, st.bitbuf as u8, st.pend);
        assert((st.bitbuf as u8) as int == st.bitbuf);
        assert((s[st.done.len() as int] as int) % two_pow(8) == st.bitbuf);
        let ff = s[fl.done.len() as int] as int;
        assert(ff % two_pow(1) == st1.bitbuf);
        assert(two_pow(1) == 2);
        assert(st1.bitbuf == bv);
        let q = ff / 2;
        lemma_fundamental_div_mod(ff, 2);
        assert(ff % 2 == bv);
        assert(dec_pos(st) == fl.done.len());
        assert(dec_nb(st) == 0);
        assert(dec_pos(st1) == fl.done.len() + 1);
        assert(dec_flag(st1, s) == ff / 2);
    }
}

/// Un-doing one payload byte: the stream completes the state before the
/// push, and the decoder's next payload read yields exactly the pushed byte.
pub proof fn lemma_push_byte(st: EncState, x: u8, s: Seq<u8>)
    requires
        st_wf(st),
        st.nbits >= 1,
        corresponds(st_push_byte(st, x), s),
    ensures
        corresponds(st, s),
        rd_byte(s, dec_pos(st)) == Some((x, dec_pos(st) + 1)),
        dec_pos(st_push_byte(st, x)) == dec_pos(st) + 1,
        dec_flag(st_push_byte(st, x), s) == dec_flag(st, s),
        dec_nb(st_push_byte(st, x)) == dec_nb(st),
{
    let st1 = st_push_byte(st, x);
    let base: int = st.done.len() as int + 1;
    assert(s.subrange(base, base + st1.pend.len() as int) == st1.pend);
    assert forall|i: int| 0 <= i < st1.pend.len() implies s[base + i] == st1.pend[i] by {
        assert(s.subrange(base, base + st1.pend.len() as int)[i] == s[base + i]);
    }
    assert(s.subrange(base, base + st.pend.len() as int) =~= st.pend);
    let j = st.pend.len() as int;
    assert(st1.pend[j] == x);
    assert(s[base + j] == st1.pend[j]);
}

pub proof fn lemma_push_token_wf(st: EncState, t: Token)
    requires
        st_wf(st),
    ensures
        st_wf(st_push_token(st, t)),
        dec_pos(st) <= dec_pos(st_push_token(st, t)),
        st_push_token(st, t).nbits >= 1,
{
    match t {
        Token::Literal(b) => {
            lemma_push_bit_wf(st, true);
            lemma_push_byte_wf(st_push_bit(st, true), b);
        },
        Token::Copy { dist, len } => {
            let d = dist as int;
            let l = len as int;
            if short_form(d, l) {
                let sz = l - 2;
                let st1 = st_push_bit(st, false);
                let st2 = st_push_bit(st1, false);
                let st3 = st_push_bit(st2, sz >= 2);
                let st4 = st_push_bit(st3, sz % 2 == 1);
                lemma_push_bit_wf(st, false);
                lemma_push_bit_wf(st1, false);
                lemma_push_bit_wf(st2, sz >= 2);
                lemma_push_bit_wf(st3, sz % 2 == 1);
                lemma_push_byte_wf(st4, (256 - d) as u8);
            } else {
                let v = (8192 - d) * 8 + (if l <= 9 {
                    l - 2
                } else {
                    0
                });
                let st1 = st_push_bit(st, false);
                let st2 = st_push_bit(st1, true);
                let st3 = st_push_byte(st2, (v % 256) as u8);
                let st4 = st_push_byte(st3, (v / 256) as u8);
                lemma_push_bit_wf(st, false);
                lemma_push_bit_wf(st1, true);
                lemma_push_byte_wf(st2, (v % 256) as u8);
                lemma_push_byte_wf(st3, (v / 256) as u8);
                if l > 9 {
                    lemma_push_byte_wf(st4, (l - 1) as u8);
                }
            }
        },
    }
}

/// Un-doing one whole token: the decoder, standing where the encoder stood
/// before the token, reads exactly that token back and moves to where the
/// encoder stands after it, its output extended by the token's replay.
pub proof fn lemma_push_token_decodes(st: EncState, t: Token, hist: Seq<u8>, s: Seq<u8>)
    requires
        st_wf(st),
        token_valid(t, hist.len() as int),
        corresponds(st_push_token(st, t), s),
    ensures
        corresponds(st, s),
        spec_decode_from(s, dec_pos(st), dec_flag(st, s), dec_nb(st), hist) == spec_decode_from(
            s,
            dec_pos(st_push_token(st, t)),
            dec_flag(st_push_token(st, t), s),
            dec_nb(st_push_token(st, t)),
            replay_one(t, hist),
        ),
{
    match t {
        Token::Literal(x) => {
            lemma_push_literal_decodes(st, x, hist, s);
        },
        Token::Copy { dist, len } => {
            if short_form(dist as int, len as int) {
                lemma_push_short_decodes(st, dist, len, hist, s);
            } else {
                lemma_push_long_decodes(st, dist, len, hist, s);
            }
        },
    }
}

#[verifier::rlimit(100)]
proof fn lemma_push_literal_decodes(st: EncState, x: u8, hist: Seq<u8>, s: Seq<u8>)
    requires
        st_wf(st),
        corresponds(st_push_token(st, Token::Literal(x)), s),
    ensures
        corresponds(st, s),
        spec_decode_from(s, dec_pos(st), dec_flag(st, s), dec_nb(st), hist) == ({
            let t = Token::Literal(x);
            spec_decode_from(
                s,
                dec_pos(st_push_token(st, t)),
                dec_flag(st_push_token(st, t), s),
                dec_nb(st_push_token(st, t)),
                replay_one(t, hist),
            )
        }),
{
    lemma_two_pow_values();
    let st1 = st_push_bit(st, true);
    lemma_push_bit_wf(st, true);
    lemma_push_byte(st1, x, s);
    lemma_push_bit(st, true, s);
}

#[verifier::rlimit(100)]
proof fn lemma_push_short_decodes(st: EncState, dist: u16, len: u16, hist: Seq<u8>, s: Seq<u8>)
    requires
        st_wf(st),
        token_valid(Token::Copy { dist, len }, hist.len() as int),
        short_form(dist as int, len as int),
        corresponds(st_push_token(st, Token::Copy { dist, len }), s),
    ensures
        corresponds(st, s),
        spec_decode_from(s, dec_pos(st), dec_flag(st, s), dec_nb(st), hist) == ({
            let t = Token::Copy { dist, len };
            spec_decode_from(
                s,
                dec_pos(st_push_token(st, t)),
                dec_flag(st_push_token(st, t), s),
                dec_nb(st_push_token(st, t)),
                replay_one(t, hist),
            )
        }),
{
    lemma_two_pow_values();
    let d = dist as int;
    let l = len as int;
    let sz = l - 2;
    let ob = (256 - d) as u8;
    let st1 = st_push_bit(st, false);
    let st2 = st_push_bit(st1, false);
    let st3 = st_push_bit(st2, sz >= 2);
    let st4 = st_push_bit(st3, sz % 2 == 1);
    lemma_push_bit_wf(st, false);
    lemma_push_bit_wf(st1, false);
    lemma_push_bit_wf(st2, sz >= 2);
    lemma_push_bit_wf(st3, sz % 2 == 1);
    lemma_push_byte(st4, ob, s);
    lemma_push_bit(st3, sz % 2 == 1, s);
    lemma_push_bit(st2, sz >= 2, s);
    lemma_push_bit(st1, false, s);
    lemma_push_bit(st, false, s);
    assert(ob as int == 256 - d);
    assert(256 - ob as int == d);
    assert(2 + 2 * bit_val(sz >= 2) + bit_val(sz % 2 == 1) == l);
}

#[verifier::rlimit(100)]
proof fn lemma_push_long_decodes(st: EncState, dist: u16, len: u16, hist: Seq<u8>, s: Seq<u8>)
    requires
        st_wf(st),
        token_valid(Token::Copy { dist, len }, hist.len() as int),
        !short_form(dist as int, len as int),
        corresponds(st_push_token(st, Token::Copy { dist, len }), s),
    ensures
        corresponds(st, s),
        spec_decode_from(s, dec_pos(st), dec_flag(st, s), dec_nb(st), hist) == ({
            let t = Token::Copy { dist, len };
            spec_decode_from(
                s,
                dec_pos(st_push_token(st, t)),
                dec_flag(st_push_token(st, t), s),
                dec_nb(st_push_token(st, t)),
                replay_one(t, hist),
            )
        }),
{
    lemma_two_pow_values();
    let d = dist as int;
    let l = len as int;
    let szb = if l <= 9 {
        l - 2
    } else {
        0
    };
    let v = (8192 - d) * 8 + szb;
    let lo = (v % 256) as u8;
    let hi = (v / 256) as u8;
    let st1 = st_push_bit(st, false);
    let st2 = st_push_bit(st1, true);
    let st3 = st_push_byte(st2, lo);
    let st4 = st_push_byte(st3, hi);
    lemma_push_bit_wf(st, false);
    lemma_push_bit_wf(st1, true);
    lemma_push_byte_wf(st2, lo);
    lemma_push_byte_wf(st3, hi);
    assert(0 <= szb < 8);
    assert(8 <= v <= 65535);
    lemma_fundamental_div_mod(v, 256);
    assert(lo as int == v % 256);
    assert(hi as int == v / 256);
    if l > 9 {
        lemma_push_byte(st4, (l - 1) as u8, s);
    }
    lemma_push_byte(st3, hi, s);
    lemma_push_byte(st2, lo, s);
    lemma_push_bit(st1, true, s);
    lemma_push_bit(st, false, s);
    assert(lo as int + 256 * (hi as int) == v);
    assert(v != 0);
    lemma_fundamental_div_mod_converse(v, 8, 8192 - d, szb);
    assert(v / 8 == 8192 - d);
    assert(v % 8 == szb);
    assert(8192 - v / 8 == d);
}

/// A state about to take its final flush corresponds to the stream that the
/// flush produces.
proof fn lemma_finish_corresponds(st: EncState)
    requires
        st_wf(st),
        st.nbits >= 1,
    ensures
        corresponds(st, st_finish(st)),
        dec_pos(st) == st_finish(st).len(),
{
    let s = st_finish(st);
    lemma_two_pow_values();
    assert(st.bitbuf < 256) by {
        lemma_two_pow_pos(st.nbits);
        crate::bitmath::lemma_two_pow_mono(st.nbits, 8);
    }
    assert((st.bitbuf as u8) as int == st.bitbuf);
    assert(s.subrange(0, st.done.len() as int) =~= st.done);
    assert(s[st.done.len() as int] == st.bitbuf as u8);
    vstd::arithmetic::div_mod::lemma_small_mod(st.bitbuf as nat, two_pow(st.nbits) as nat);
    assert(s.subrange(st.done.len() as int + 1, st.done.len() as int + 1 + st.pend.len() as int)
        =~= st.pend);
}

/// The heart of the codec's round trip: a stream assembled from valid
/// tokens decodes to their replay, and the same stream short of its final
/// byte is seen as truncated.
pub proof fn lemma_assemble_decodes(st: EncState, ts: Seq<Token>, hist: Seq<u8>)
    requires
        st_wf(st),
        tokens_valid(ts, hist),
    ensures
        ({
            let s = assemble(st, ts);
            &&& corresponds(st, s)
            &&& s.len() >= dec_pos(st) + 2
            &&& spec_decode_from(s, dec_pos(st), dec_flag(st, s), dec_nb(st), hist) == Ok::<
                Seq<u8>,
                PrsError,
            >(replay(ts, hist))
            &&& spec_decode_from(
                s.take(s.len() - 1),
                dec_pos(st),
                dec_flag(st, s),
                dec_nb(st),
                hist,
            ) == Err::<Seq<u8>, PrsError>(PrsError::TruncatedStream)
        }),
    decreases ts.len(),
{
    let s = assemble(st, ts);
    lemma_two_pow_values();
    if ts.len() == 0 {
        let st1 = st_push_bit(st, false);
        let st2 = st_push_bit(st1, true);
        let st3 = st_push_byte(st2, 0u8);
        let st4 = st_push_byte(st3, 0u8);
        lemma_push_bit_wf(st, false);
        lemma_push_bit_wf(st1, true);
        lemma_push_byte_wf(st2, 0u8);
        lemma_push_byte_wf(st3, 0u8);
        assert(s == st_finish(st4));
        lemma_finish_corresponds(st4);
        lemma_push_byte(st3, 0u8, s);
        lemma_push_byte(st2, 0u8, s);
        lemma_push_bit(st1, true, s);
        lemma_push_bit(st, false, s);
        assert(spec_decode_from(s, dec_pos(st), dec_flag(st, s), dec_nb(st), hist) == Ok::<
            Seq<u8>,
            PrsError,
        >(hist));
        // one byte short, the second half of the end marker is missing
        let s_t = s.take(s.len() - 1);
        assert(s.len() == dec_pos(st3) + 1);
        lemma_corresponds_take(st3, s, s.len() - 1);
        lemma_push_byte(st2, 0u8, s_t);
        lemma_push_bit(st1, true, s_t);
        lemma_push_bit(st, false, s_t);
        lemma_corresponds_take(st, s, s.len() - 1);
        assert(rd_byte(s_t, dec_pos(st3)) is None);
        assert(spec_decode_from(s_t, dec_pos(st), dec_flag(st, s_t), dec_nb(st), hist) == Err::<
            Seq<u8>,
            PrsError,
        >(PrsError::TruncatedStream));
    } else {
        let t = ts[0];
        let rest = ts.drop_first();
        let st1 = st_push_token(st, t);
        let hist1 = replay_one(t, hist);
        lemma_push_token_wf(st, t);
        assert(s == assemble(st1, rest));
        lemma_assemble_decodes(st1, rest, hist1);
        lemma_push_token_decodes(st, t, hist, s);
        assert(spec_decode_from(s, dec_pos(st), dec_flag(st, s), dec_nb(st), hist) == Ok::<
            Seq<u8>,
            PrsError,
        >(replay(ts, hist)));
        let s_t = s.take(s.len() - 1);
        lemma_corresponds_take(st1, s, s.len() - 1);
        lemma_push_token_decodes(st, t, hist, s_t);
        lemma_corresponds_take(st, s, s.len() - 1);
        assert(spec_decode_from(s_t, dec_pos(st), dec_flag(st, s_t), dec_nb(st), hist) == Err::<
            Seq<u8>,
            PrsError,
        >(PrsError::TruncatedStream));
    }
}

pub proof fn lemma_push_tokens_snoc(st: EncState, ts: Seq<Token>, t: Token)
    ensures
        st_push_tokens(st, ts.push(t)) == st_push_token(st_push_tokens(st, ts), t),
    decreases ts.len(),
{
    let u = ts.push(t);
    if ts.len() == 0 {
        assert(u[0] == t);
        assert(u.drop_first() =~= Seq::<Token>::empty());
        assert(st_push_tokens(st, u) == st_push_tokens(st_push_token(st, t), u.drop_first()));
        assert(st_push_tokens(st_push_token(st, t), u.drop_first()) == st_push_token(st, t));
        assert(st_push_tokens(st, ts) == st);
    } else {
        assert(u[0] == ts[0]);
        assert(u.drop_first() =~= ts.drop_first().push(t));
        lemma_push_tokens_snoc(st_push_token(st, ts[0]), ts.drop_first(), t);
        assert(st_push_tokens(st, u) == st_push_tokens(st_push_token(st, ts[0]), u.drop_first()));
        assert(st_push_tokens(st, ts) == st_push_tokens(st_push_token(st, ts[0]), ts.drop_first()));
    }
}

// --- size accounting: what one token may cost the stream ---

/// Eight times the bytes a state has emitted or owes, plus its gathered
/// control bits.
pub open spec fn st_weight(st: EncState) -> int {
    8 * (st.done.len() + st.pend.len()) + st.nbits
}

/// How many input bytes one token covers.
pub open spec fn token_gain(t: Token) -> int {
    match t {
        Token::Literal(_) => 1,
        Token::Copy { dist: _, len } => len as int,
    }
}

proof fn lemma_weight_bit(st: EncState, b: bool)
    ensures
        st_weight(st_push_bit(st, b)) == st_weight(st) + 1,
{
}

proof fn lemma_weight_token(st: EncState, t: Token)
    requires
        token_gain(t) >= 1,
        (t is Copy ==> token_gain(t) >= 2),
    ensures
        st_weight(st_push_token(st, t)) <= st_weight(st) + 9 * token_gain(t),
{
    match t {
        Token::Literal(_) => {
            lemma_weight_bit(st, true);
        },
        Token::Copy { dist, len } => {
            let d = dist as int;
            let l = len as int;
            if short_form(d, l) {
                let sz = l - 2;
                let st1 = st_push_bit(st, false);
                let st2 = st_push_bit(st1, false);
                let st3 = st_push_bit(st2, sz >= 2);
                lemma_weight_bit(st, false);
                lemma_weight_bit(st1, false);
                lemma_weight_bit(st2, sz >= 2);
                lemma_weight_bit(st3, sz % 2 == 1);
            } else {
                let st1 = st_push_bit(st, false);
                lemma_weight_bit(st, false);
                lemma_weight_bit(st1, true);
            }
        },
    }
}

proof fn lemma_push_tokens_wf(st: EncState, ts: Seq<Token>)
    requires
        st_wf(st),
    ensures
        st_wf(st_push_tokens(st, ts)),
    decreases ts.len(),
{
    if ts.len() > 0 {
        lemma_push_token_wf(st, ts[0]);
        lemma_push_tokens_wf(st_push_token(st, ts[0]), ts.drop_first());
    }
}

proof fn lemma_weight_tokens(st: EncState, ts: Seq<Token>, hist: Seq<u8>)
    requires
        tokens_valid(ts, hist),
    ensures
        replay(ts, hist).len() >= hist.len(),
        st_weight(st_push_tokens(st, ts)) <= st_weight(st) + 9 * (replay(ts, hist).len()
            - hist.len()),
    decreases ts.len(),
{
    if ts.len() > 0 {
        let t = ts[0];
        let hist1 = replay_one(t, hist);
        if t is Copy {
            lemma_spec_copy_len(hist, t->Copy_dist as int, t->Copy_len as int);
        }
        lemma_weight_token(st, t);
        lemma_weight_tokens(st_push_token(st, t), ts.drop_first(), hist1);
    }
}

/// The stream never grows past nine-eighths of the input plus a few bytes
/// of end marker and flag padding.
pub proof fn lemma_assemble_len(st: EncState, ts: Seq<Token>, hist: Seq<u8>)
    requires
        st_wf(st),
        tokens_valid(ts, hist),
    ensures
        8 * assemble(st, ts).len() <= st_weight(st) + 9 * (replay(ts, hist).len() - hist.len())
            + 26,
{
    lemma_weight_tokens(st, ts, hist);
    lemma_push_tokens_wf(st, ts);
    let stt = st_push_tokens(st, ts);
    let st1 = st_push_bit(stt, false);
    let st2 = st_push_bit(st1, true);
    lemma_weight_bit(stt, false);
    lemma_weight_bit(st1, true);
    lemma_push_bit_wf(stt, false);
    lemma_push_bit_wf(st1, true);
    let ste = st_push_end(stt);
    assert(st_weight(ste) <= st_weight(stt) + 18);
    assert(assemble(st, ts).len() == ste.done.len() + 1 + ste.pend.len());
    assert(ste.nbits >= 0);
}

} // verus!
