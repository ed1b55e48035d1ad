use vstd::prelude::*;
use crate::bitmath::{two_pow, lemma_two_pow_values};
use crate::tokens::{
    Token, PrsError, token_fits, token_valid, tokens_valid, replay,
    lemma_replay_snoc, lemma_tokens_valid_snoc, lemma_copy_extends,
};
use crate::encstate::{
    EncState, st_wf, st_init, st_push_bit, st_push_byte, st_push_token, st_push_end, st_finish,
    st_push_tokens, assemble, dec_pos, dec_flag, dec_nb, st_weight,
    lemma_push_bit_wf, lemma_push_token_wf, lemma_push_tokens_snoc, lemma_assemble_decodes,
    lemma_assemble_len,
};
use crate::decode::spec_decompress;

verus! {

/// The growing stream: emitted bytes, the control bits gathered for the
/// next flag byte, and the payload bytes owed under those bits. Mirrors
/// `EncState` field by field.
struct Emitter {
    out: Vec<u8>,
    bitbuf: u8,
    nbits: u8,
    pend: Vec<u8>,
}

impl Emitter {
    spec fn st(&self) -> EncState {
        EncState {
            done: self.out@,
            bitbuf: self.bitbuf as int,
            nbits: self.nbits as int,
            pend: self.pend@,
        }
    }

    fn new() -> (e: Emitter)
        ensures
            e.st() == st_init(),
    {
        let e = Emitter { out: Vec::new(), bitbuf: 0, nbits: 0, pend: Vec::new() };
        proof {
            assert(e.st() =~= st_init());
        }
        e
    }

    fn push_bit(&mut self, b: bool)
        requires
            st_wf(old(self).st()),
        ensures
            final(self).st() == st_push_bit(old(self).st(), b),
            st_wf(final(self).st()),
    {
        proof {
            lemma_two_pow_values();
            lemma_push_bit_wf(old(self).st(), b);
        }
        if self.nbits == 8 {
            self.out.push(self.bitbuf);
            self.out.append(&mut self.pend);
            self.bitbuf = 0;
            self.nbits = 0;
            proof {
                assert(self.out@ =~= old(self).st().done + seq![old(self).bitbuf] + old(
                    self,
                ).st().pend);
            }
        }
        if b {
            self.bitbuf = self.bitbuf + pow2_u8(self.nbits);
        }
        self.nbits = self.nbits + 1;
        proof {
            assert(self.st() =~= st_push_bit(old(self).st(), b));
        }
    }

    fn push_byte(&mut self, x: u8)
        ensures
            final(self).st() == st_push_byte(old(self).st(), x),
    {
        self.pend.push(x);
        proof {
            assert(self.st() =~= st_push_byte(old(self).st(), x));
        }
    }

    fn push_token(&mut self, t: Token)
        requires
            st_wf(old(self).st()),
            token_fits(t),
        ensures
            final(self).st() == st_push_token(old(self).st(), t),
            st_wf(final(self).st()),
    {
        proof {
            lemma_push_token_wf(old(self).st(), t);
        }
        match t {
            Token::Literal(x) => {
                self.push_bit(true);
                self.push_byte(x);
            },
            Token::Copy { dist, len } => {
                if dist <= 255 && len <= 5 {
                    let sz: u16 = len - 2;
                    self.push_bit(false);
                    self.push_bit(false);
                    self.push_bit(sz >= 2);
                    self.push_bit(sz % 2 == 1);
                    let ob: u16 = 256 - dist;
                    self.push_byte(ob as u8);
                } else {
                    let szb: u16 = if len <= 9 {
                        len - 2
                    } else {
                        0
                    };
                    let v: u16 = (8192 - dist) * 8 + szb;
                    self.push_bit(false);
                    self.push_bit(true);
                    self.push_byte((v % 256) as u8);
                    self.push_byte((v / 256) as u8);
                    if len > 9 {
                        self.push_byte((len - 1) as u8);
                    }
                }
            },
        }
    }

    /// Writes the end marker, then the last flag byte and the payloads owed
    /// under it, and hands the finished stream over.
    fn finish(self) -> (r: Vec<u8>)
        requires
            st_wf(self.st()),
        ensures
            r@ == st_finish(st_push_end(self.st())),
    {
        let ghost st0 = self.st();
        let mut this = self;
        this.push_bit(false);
        this.push_bit(true);
        this.push_byte(0);
        this.push_byte(0);
        proof {
            assert(this.st() == st_push_end(st0));
        }
        this.out.push(this.bitbuf);
        this.out.append(&mut this.pend);
        proof {
            assert(this.out@ =~= st_finish(st_push_end(st0)));
        }
        this.out
    }
}

fn pow2_u8(n: u8) -> (r: u8)
    requires
        n <= 7,
    ensures
        r as int == two_pow(n as int),
{
    proof {
        lemma_two_pow_values();
    }
    if n == 0 {
        1
    } else if n == 1 {
        2
    } else if n == 2 {
        4
    } else if n == 3 {
        8
    } else if n == 4 {
        16
    } else if n == 5 {
        32
    } else if n == 6 {
        64
    } else {
        128
    }
}

/// An earlier run of `l` bytes at distance `d` behind `i` equal to the
/// bytes at `i` (indices past `i` allowed: a self-overlapping run).
pub open spec fn is_match(data: Seq<u8>, i: int, d: int, l: int) -> bool {
    forall|k: int| 0 <= k < l ==> #[trigger] data[i + k] == data[i - d + k]
}

/// Greedy search for the longest earlier run of bytes equal to the bytes at
/// `i`, within the format's window of 8191 and its longest copy of 256.
/// Distances are tried nearest first and only a strictly longer run
/// displaces the best, so among equally long matches the nearest offset
/// wins; a match is returned only when the format can carry it.
#[verifier::rlimit(30)]
fn find_match(data: &Vec<u8>, i: usize) -> (m: Option<(u16, u16)>)
    requires
        i < data@.len(),
    ensures
        match m {
            Some(dl) => {
                &&& 1 <= dl.0 <= 8191
                &&& dl.0 as int <= i as int
                &&& 2 <= dl.1 <= 256
                &&& i + dl.1 <= data@.len()
                &&& (dl.0 <= 255 && dl.1 <= 5 || dl.1 >= 3)
                &&& is_match(data@, i as int, dl.0 as int, dl.1 as int)
                // no admissible match is longer
                &&& forall|d2: int, l2: int|
                    1 <= d2 <= i && d2 <= 8191 && 0 <= l2 <= 256 && i + l2 <= data@.len()
                        && is_match(data@, i as int, d2, l2) ==> l2 <= dl.1 as int
                // and none as long stands nearer
                &&& forall|d2: int|
                    1 <= d2 < dl.0 as int ==> !is_match(data@, i as int, d2, dl.1 as int)
            },
            None => forall|d2: int, l2: int|
                1 <= d2 <= i && d2 <= 8191 && 0 <= l2 <= 256 && i + l2 <= data@.len()
                    && is_match(data@, i as int, d2, l2) ==> l2 <= 2 && (l2 == 2 ==> d2 > 255),
        },
{
    let n = data.len();
    let maxl: usize = if n - i < 256 {
        n - i
    } else {
        256
    };
    let dmax: usize = if i < 8191 {
        i
    } else {
        8191
    };
    let mut best_d: usize = 0;
    let mut best_l: usize = 0;
    let mut d: usize = 1;
    while d <= dmax
        invariant
            1 <= d <= dmax + 1,
            dmax <= i < n,
            dmax <= 8191,
            i <= 8191 ==> dmax == i,
            n == data@.len(),
            maxl <= n - i,
            maxl <= 256,
            n - i < 256 ==> maxl == n - i,
            256 <= n - i ==> maxl == 256,
            best_l <= maxl,
            best_l > 0 ==> 1 <= best_d <= dmax,
            best_l > 0 ==> is_match(data@, i as int, best_d as int, best_l as int),
            forall|d2: int, l2: int|
                1 <= d2 < d && 0 <= l2 <= maxl && is_match(data@, i as int, d2, l2) ==> l2
                    <= best_l as int,
            forall|d2: int|
                1 <= d2 < best_d as int ==> !is_match(data@, i as int, d2, best_l as int),
        decreases dmax + 1 - d,
    {
        let ghost old_best_l = best_l as int;
        let ghost old_best_d = best_d as int;
        let mut l: usize = 0;
        while l < maxl && data[i + l] == data[i - d + l]
            invariant
                l <= maxl,
                maxl <= n - i,
                n == data@.len(),
                1 <= d <= i < n,
                is_match(data@, i as int, d as int, l as int),
            decreases maxl - l,
        {
            l = l + 1;
        }
        proof {
            assert forall|l2: int| (l as int) < l2 <= (maxl as int) implies !is_match(
                data@,
                i as int,
                d as int,
                l2,
            ) by {
                if is_match(data@, i as int, d as int, l2) {
                    assert(data@[i as int + l as int] == data@[i as int - d as int + l as int]);
                }
            }
        }
        if l > best_l {
            best_l = l;
            best_d = d;
            proof {
                assert forall|d2: int|
                    1 <= d2 < (best_d as int) implies !is_match(
                    data@,
                    i as int,
                    d2,
                    best_l as int,
                ) by {
                    if is_match(data@, i as int, d2, best_l as int) {
                        assert(best_l as int <= old_best_l);
                    }
                }
            }
        }
        d = d + 1;
    }
    if best_l >= 3 || (best_l == 2 && best_d <= 255) {
        Some((best_d as u16, best_l as u16))
    } else {
        None
    }
}

/// Splits the input into literal and copy tokens whose replay is exactly
/// the input: at each position the longest earlier match is taken when the
/// format can carry one, a literal otherwise.
fn tokenize(data: &Vec<u8>) -> (ts: Vec<Token>)
    ensures
        tokens_valid(ts@, Seq::empty()),
        replay(ts@, Seq::empty()) == data@,
{
    let n = data.len();
    let mut ts: Vec<Token> = Vec::new();
    let mut i: usize = 0;
    while i < n
        invariant
            i <= n,
            n == data@.len(),
            tokens_valid(ts@, Seq::empty()),
            replay(ts@, Seq::empty()) == data@.subrange(0, i as int),
        decreases n - i,
    {
        let ghost pre = ts@;
        let ghost h = data@.subrange(0, i as int);
        match find_match(data, i) {
            Some(dl) => {
                let t = Token::Copy { dist: dl.0, len: dl.1 };
                ts.push(t);
                proof {
                    assert(h.len() == i as int);
                    lemma_copy_extends(data@, i as int, dl.0 as int, dl.1 as int);
                    lemma_replay_snoc(pre, t, Seq::empty());
                    lemma_tokens_valid_snoc(pre, t, Seq::empty());
                }
                i = i + dl.1 as usize;
            },
            None => {
                let t = Token::Literal(data[i]);
                ts.push(t);
                proof {
                    lemma_replay_snoc(pre, t, Seq::empty());
                    lemma_tokens_valid_snoc(pre, t, Seq::empty());
                    assert(h.push(data@[i as int]) =~= data@.subrange(0, i as int + 1));
                }
                i = i + 1;
            },
        }
    }
    proof {
        assert(data@.subrange(0, data@.len() as int) =~= data@);
    }
    ts
}

/// Compress bytes into a PRS stream. This never fails: the contract says
/// the stream decodes back to exactly the input, that cutting its last byte
/// makes it truncated, and that it never grows past nine-eighths of the
/// input plus a few bytes of end marker and flag padding.
pub fn compress(data: Vec<u8>) -> (r: Vec<u8>)
    ensures
        spec_decompress(r@) == Ok::<Seq<u8>, PrsError>(data@),
        r@.len() >= 2,
        spec_decompress(r@.take(r@.len() - 1)) == Err::<Seq<u8>, PrsError>(
            PrsError::TruncatedStream,
        ),
        8 * r@.len() <= 9 * data@.len() + 26,
{
    let ts = tokenize(&data);
    let n = ts.len();
    let mut em = Emitter::new();
    proof {
        assert(ts@.subrange(0, 0) =~= Seq::<Token>::empty());
        assert(ts@.subrange(0, n as int) =~= ts@);
    }
    let mut j: usize = 0;
    while j < n
        invariant
            j <= n,
            n == ts@.len(),
            em.st() == st_push_tokens(st_init(), ts@.subrange(0, j as int)),
            st_wf(em.st()),
            tokens_valid(
                ts@.subrange(j as int, n as int),
                replay(ts@.subrange(0, j as int), Seq::empty()),
            ),
        decreases n - j,
    {
        let t = ts[j];
        proof {
            let sfx = ts@.subrange(j as int, n as int);
            assert(sfx[0] == t);
            assert(token_valid(t, replay(ts@.subrange(0, j as int), Seq::empty()).len() as int));
            assert(ts@.subrange(0, j as int).push(t) =~= ts@.subrange(0, j as int + 1));
            lemma_push_tokens_snoc(st_init(), ts@.subrange(0, j as int), t);
            lemma_replay_snoc(ts@.subrange(0, j as int), t, Seq::empty());
            assert(sfx.drop_first() =~= ts@.subrange(j as int + 1, n as int));
        }
        em.push_token(t);
        j = j + 1;
    }
    proof {
        assert(ts@.subrange(0, n as int) =~= ts@);
    }
    let r = em.finish();
    proof {
        lemma_assemble_decodes(st_init(), ts@, Seq::empty());
        lemma_assemble_len(st_init(), ts@, Seq::empty());
        assert(r@ == assemble(st_init(), ts@));
        assert(dec_pos(st_init()) == 0 && dec_nb(st_init()) == 0);
        assert(dec_flag(st_init(), r@) == 0);
        assert(dec_flag(st_init(), r@.take(r@.len() - 1)) == 0);
        assert(st_weight(st_init()) == 0);
    }
    r
}

} // verus!
