use vstd::prelude::*;

verus! {

/// A decoding failure: the two ways a PRS stream can be corrupt.
#[derive(Clone, Copy, Debug, PartialEq, Eq, Structural)]
pub enum PrsError {
    /// The stream ended in the middle of a token, or before the end marker.
    TruncatedStream,
    /// A back-reference reached behind the start of the output.
    InvalidReference,
}

/// One instruction of the PRS command stream. The end marker is not a
/// `Token`: the encoder always writes it last and the decoder stops on it.
#[derive(Clone, Copy, Debug, PartialEq, Eq, Structural)]
pub enum Token {
    /// Copy one raw byte to the output.
    Literal(u8),
    /// Copy `len` bytes starting `dist` bytes behind the output cursor.
    Copy { dist: u16, len: u16 },
}

/// What the wire format can carry, apart from where the copy points: a
/// distance of 1 to 8191 (13 bits), a length in the short form (distance up
/// to 255, length 2 to 5) or in the long form (length at least 3, up to
/// 256).
pub open spec fn token_fits(t: Token) -> bool {
    match t {
        Token::Literal(_) => true,
        Token::Copy { dist, len } => 1 <= dist <= 8191 && 2 <= len <= 256 && ((dist <= 255 && len
            <= 5) || 3 <= len),
    }
}

/// A token the decoder will accept: it fits the wire format and, for a
/// copy, reaches only into the bytes already produced (`dist <= hist_len`).
pub open spec fn token_valid(t: Token, hist_len: int) -> bool {
    match t {
        Token::Literal(_) => true,
        Token::Copy { dist, len } => token_fits(t) && dist <= hist_len,
    }
}

/// Replay of one back-reference: `cnt` bytes appended one at a time, each
/// read `dist` bytes behind the current end, so a copy whose length exceeds
/// its distance repeats the bytes it has just produced.
pub open spec fn spec_copy(out: Seq<u8>, dist: int, cnt: int) -> Seq<u8>
    decreases cnt,
{
    if cnt <= 0 || dist < 1 || dist > out.len() {
        out
    } else {
        spec_copy(out.push(out[out.len() - dist]), dist, cnt - 1)
    }
}

/// What one token adds to the output.
pub open spec fn replay_one(t: Token, out: Seq<u8>) -> Seq<u8> {
    match t {
        Token::Literal(b) => out.push(b),
        Token::Copy { dist, len } => spec_copy(out, dist as int, len as int),
    }
}

/// The output that a token sequence produces when replayed onto `out`.
pub open spec fn replay(ts: Seq<Token>, out: Seq<u8>) -> Seq<u8>
    decreases ts.len(),
{
    if ts.len() == 0 {
        out
    } else {
        replay(ts.drop_first(), replay_one(ts[0], out))
    }
}

/// Each token in turn is valid for the output built by the tokens before it.
pub open spec fn tokens_valid(ts: Seq<Token>, out: Seq<u8>) -> bool
    decreases ts.len(),
{
    if ts.len() == 0 {
        true
    } else {
        token_valid(ts[0], out.len() as int) && tokens_valid(ts.drop_first(), replay_one(ts[0], out))
    }
}

pub proof fn lemma_replay_snoc(ts: Seq<Token>, t: Token, out: Seq<u8>)
    ensures
        replay(ts.push(t), out) == replay_one(t, replay(ts, out)),
    decreases ts.len(),
{
    let u = ts.push(t);
    if ts.len() == 0 {
        assert(u[0] == t);
        assert(u.drop_first() =~= Seq::<Token>::empty());
        assert(replay(u, out) == replay(u.drop_first(), replay_one(t, out)));
        assert(replay(u.drop_first(), replay_one(t, out)) == replay_one(t, out));
        assert(replay(ts, out) == out);
    } else {
        assert(u[0] == ts[0]);
        assert(u.drop_first() =~= ts.drop_first().push(t));
        lemma_replay_snoc(ts.drop_first(), t, replay_one(ts[0], out));
        assert(replay(u, out) == replay(u.drop_first(), replay_one(ts[0], out)));
        assert(replay(ts, out) == replay(ts.drop_first(), replay_one(ts[0], out)));
    }
}

pub proof fn lemma_tokens_valid_snoc(ts: Seq<Token>, t: Token, out: Seq<u8>)
    requires
        tokens_valid(ts, out),
        token_valid(t, replay(ts, out).len() as int),
    ensures
        tokens_valid(ts.push(t), out),
    decreases ts.len(),
{
    let u = ts.push(t);
    if ts.len() == 0 {
        assert(u[0] == t);
        assert(u.drop_first() =~= Seq::<Token>::empty());
        assert(replay(ts, out) == out);
        assert(tokens_valid(u.drop_first(), replay_one(t, out)));
        assert(tokens_valid(u, out) == (token_valid(u[0], out.len() as int) && tokens_valid(
            u.drop_first(),
            replay_one(u[0], out),
        )));
    } else {
        assert(u[0] == ts[0]);
        assert(u.drop_first() =~= ts.drop_first().push(t));
        assert(replay(ts, out) == replay(ts.drop_first(), replay_one(ts[0], out)));
        lemma_tokens_valid_snoc(ts.drop_first(), t, replay_one(ts[0], out));
        assert(tokens_valid(u, out) == (token_valid(u[0], out.len() as int) && tokens_valid(
            u.drop_first(),
            replay_one(u[0], out),
        )));
    }
}

/// Length and prefix growth of a single copy replay.
pub proof fn lemma_spec_copy_len(out: Seq<u8>, dist: int, cnt: int)
    requires
        1 <= dist <= out.len(),
        0 <= cnt,
    ensures
        spec_copy(out, dist, cnt).len() == out.len() + cnt,
    decreases cnt,
{
    if cnt > 0 {
        lemma_spec_copy_len(out.push(out[out.len() - dist]), dist, cnt - 1);
    }
}

/// A back-reference the tokenizer found in the input replays to exactly the
/// input bytes it stands for: if every byte of `data[i .. i+len]` equals the
/// byte `dist` places before it, then copying extends the decoded prefix
/// `data[..i]` to the decoded prefix `data[..i+len]`.
pub proof fn lemma_copy_extends(data: Seq<u8>, i: int, dist: int, len: int)
    requires
        1 <= dist <= i,
        0 <= len,
        i + len <= data.len(),
        forall|k: int| 0 <= k < len ==> #[trigger] data[i + k] == data[i - dist + k],
    ensures
        spec_copy(data.subrange(0, i), dist, len) == data.subrange(0, i + len),
    decreases len,
{
    let pre = data.subrange(0, i);
    if len == 0 {
        assert(pre =~= data.subrange(0, i + len));
    } else {
        assert(data[i + 0] == data[i - dist + 0]);
        assert(pre[pre.len() - dist] == data[i - dist]);
        assert(pre.push(pre[pre.len() - dist]) =~= data.subrange(0, i + 1));
        assert forall|k: int| 0 <= k < len - 1 implies #[trigger] data[(i + 1) + k] == data[(i + 1)
            - dist + k] by {
            let kk = k + 1;
            assert(data[i + kk] == data[i - dist + kk]);
            assert(i + kk == (i + 1) + k);
            assert(i - dist + kk == (i + 1) - dist + k);
        }
        lemma_copy_extends(data, i + 1, dist, len - 1);
        assert(spec_copy(pre, dist, len) == spec_copy(data.subrange(0, i + 1), dist, len - 1));
    }
}

} // verus!
