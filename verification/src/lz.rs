//! Fixed-window LZ77: the stream is a sequence of tokens, each either a
//! literal (`0x00` then one raw byte) or a match (`0x01` then a one-byte
//! distance back into the decoded output and a one-byte length). Matches may
//! overlap their own output: a distance smaller than the length copies bytes
//! written earlier in the same token, reproducing short cycles.

use vstd::prelude::*;

use crate::CodecError;

verus! {

/// How far back the compressor looks for a match.
pub const WINDOW_SIZE: usize = 20;

/// Longest match a one-byte length field can encode.
pub const MAX_MATCH_LENGTH: u8 = 255;

/// Tag byte introducing a literal token.
pub const LITERAL_TAG: u8 = 0x00;

/// Tag byte introducing a match token.
pub const MATCH_TAG: u8 = 0x01;

/// Length of the common run of `s` read from `off` and from `pos` in step,
/// counted from `k` on: the count grows while both positions hold equal bytes,
/// the faster cursor stays inside `s`, and the cap of 255 is not reached.
/// The run may extend past `pos` itself, so a match can reach into bytes the
/// copy itself will produce.
pub open spec fn match_len_from(s: Seq<u8>, off: int, pos: int, k: int) -> int
    decreases MAX_MATCH_LENGTH as int - k,
{
    if 0 <= k < MAX_MATCH_LENGTH as int && pos + k < s.len() && s[off + k] == s[pos + k] {
        match_len_from(s, off, pos, k + 1)
    } else {
        k
    }
}

/// Length of the match between the candidate start `off` and the current
/// position `pos`, capped at 255.
pub open spec fn match_len(s: Seq<u8>, off: int, pos: int) -> int {
    match_len_from(s, off, pos, 0)
}

/// Best `(distance, length)` among candidate starts in `[start, end)`,
/// scanned oldest first; a later candidate replaces the best only when
/// strictly longer, so among equal lengths the oldest start — the greatest
/// distance — wins. `(0, 0)` when no candidate matches at all.
pub open spec fn best_match_upto(s: Seq<u8>, pos: int, start: int, end: int) -> (int, int)
    decreases end - start,
{
    if end <= start {
        (0int, 0int)
    } else {
        let prev = best_match_upto(s, pos, start, end - 1);
        let len = match_len(s, end - 1, pos);
        if len > prev.1 {
            (pos - (end - 1), len)
        } else {
            prev
        }
    }
}

/// First candidate start the window admits at `pos`.
pub open spec fn search_start(pos: int) -> int {
    if pos >= WINDOW_SIZE as int {
        pos - WINDOW_SIZE as int
    } else {
        0
    }
}

/// Best `(distance, length)` over the whole window at `pos`.
pub open spec fn best_match(s: Seq<u8>, pos: int) -> (int, int) {
    best_match_upto(s, pos, search_start(pos), pos)
}

/// The token stream the compressor still emits for the bytes of `s` from
/// `pos` on: a match token when the best match is longer than two bytes —
/// two literal tokens are never larger than one match token — else a literal.
pub open spec fn lz_encode_from(s: Seq<u8>, pos: int) -> Seq<u8>
    decreases s.len() - pos,
    via lz_encode_from_decreases
{
    if pos < 0 || pos >= s.len() {
        Seq::empty()
    } else {
        let bm = best_match(s, pos);
        if bm.1 > 2 {
            seq![MATCH_TAG, bm.0 as u8, bm.1 as u8] + lz_encode_from(s, pos + bm.1)
        } else {
            seq![LITERAL_TAG, s[pos]] + lz_encode_from(s, pos + 1)
        }
    }
}

#[via_fn]
proof fn lz_encode_from_decreases(s: Seq<u8>, pos: int) {
    if 0 <= pos < s.len() {
        lemma_best_match_props(s, pos);
    }
}

/// The LZ77 encoding of `s`.
pub open spec fn lz_compressed(s: Seq<u8>) -> Seq<u8> {
    lz_encode_from(s, 0)
}

/// `out` grown by `len` bytes copied one at a time from `dist` places back:
/// each copied byte at once becomes a legal source, so a distance smaller
/// than `len` repeats the trailing cycle of `out`.
pub open spec fn lz_extend(out: Seq<u8>, dist: int, len: int) -> Seq<u8>
    decreases len,
{
    if len <= 0 {
        out
    } else {
        lz_extend(out.push(out[out.len() - dist]), dist, len - 1)
    }
}

/// What decoding the rest of a token stream appends to the bytes `out`
/// decoded so far, or the error that stops it: a truncated token, a tag
/// other than the two known ones, or a match that reaches back past the
/// start of `out` — distance zero with bytes to copy has no source byte
/// either and is rejected the same way.
pub open spec fn lz_decode_from(enc: Seq<u8>, out: Seq<u8>) -> Result<Seq<u8>, CodecError>
    decreases enc.len(),
{
    if enc.len() == 0 {
        Ok(out)
    } else if enc[0] == LITERAL_TAG {
        if enc.len() >= 2 {
            lz_decode_from(enc.skip(2), out.push(enc[1]))
        } else {
            Err(CodecError::TruncatedLiteral)
        }
    } else if enc[0] == MATCH_TAG {
        if enc.len() >= 3 {
            let dist = enc[1] as int;
            let len = enc[2] as int;
            if dist > out.len() || (dist == 0 && len > 0) {
                Err(CodecError::InvalidDistance)
            } else {
                lz_decode_from(enc.skip(3), lz_extend(out, dist, len))
            }
        } else {
            Err(CodecError::TruncatedMatch)
        }
    } else {
        Err(CodecError::UnknownToken)
    }
}

/// What an LZ77 token stream decodes to, starting from empty output.
pub open spec fn lz_decoded(enc: Seq<u8>) -> Result<Seq<u8>, CodecError> {
    lz_decode_from(enc, Seq::empty())
}

/// The counted match run lies inside `s` and really is a run of equal bytes.
proof fn lemma_match_len_from_props(s: Seq<u8>, off: int, pos: int, k: int)
    requires
        0 <= off,
        0 <= k <= MAX_MATCH_LENGTH as int,
        pos + k <= s.len(),
    ensures
        ({
            let m = match_len_from(s, off, pos, k);
            k <= m <= MAX_MATCH_LENGTH as int && pos + m <= s.len()
                && forall|j: int| k <= j < m ==> s[off + j] == #[trigger] s[pos + j]
        }),
    decreases MAX_MATCH_LENGTH as int - k,
{
    if 0 <= k < MAX_MATCH_LENGTH as int && pos + k < s.len() && s[off + k] == s[pos + k] {
        lemma_match_len_from_props(s, off, pos, k + 1);
    }
}

/// A nonzero best match names a candidate inside the scanned range: its
/// distance reaches at least one and at most `pos - start` bytes back, and
/// its length is that candidate's match length.
proof fn lemma_best_match_upto_props(s: Seq<u8>, pos: int, start: int, end: int)
    requires
        0 <= start <= end <= pos <= s.len(),
    ensures
        ({
            let bm = best_match_upto(s, pos, start, end);
            0 <= bm.1 <= MAX_MATCH_LENGTH as int && pos + bm.1 <= s.len()
                && (bm.1 > 0 ==> 1 <= bm.0 <= pos - start
                    && bm.1 == match_len(s, pos - bm.0, pos))
        }),
    decreases end - start,
{
    if end > start {
        lemma_best_match_upto_props(s, pos, start, end - 1);
        lemma_match_len_from_props(s, end - 1, pos, 0);
    }
}

/// Every best match fits the token format and copies only equal bytes: the
/// distance fits the window, the length fits one byte, the matched run stays
/// inside `s`, and the run `bm.0` places back equals the run at `pos`.
proof fn lemma_best_match_props(s: Seq<u8>, pos: int)
    requires
        0 <= pos <= s.len(),
    ensures
        ({
            let bm = best_match(s, pos);
            0 <= bm.1 <= MAX_MATCH_LENGTH as int && pos + bm.1 <= s.len()
                && (bm.1 > 0 ==> 1 <= bm.0 <= WINDOW_SIZE as int && bm.0 <= pos
                    && forall|j: int| 0 <= j < bm.1 ==> s[pos - bm.0 + j] == #[trigger] s[pos + j])
        }),
{
    lemma_best_match_upto_props(s, pos, search_start(pos), pos);
    let bm = best_match(s, pos);
    if bm.1 > 0 {
        lemma_match_len_from_props(s, pos - bm.0, pos, 0);
    }
}

/// Compresses `input` with the fixed-window LZ77 scheme: at each position the
/// longest match in the window — oldest candidate first, replaced only by a
/// strictly longer one — becomes a match token when longer than two bytes,
/// else the byte becomes a literal token. Empty input gives empty output.
pub fn compress(input: &Vec<u8>) -> (out: Vec<u8>)
    ensures
        out@ == lz_compressed(input@),
{
    let mut out: Vec<u8> = Vec::new();
    let mut pos: usize = 0;
    proof {
        assert(out@ + lz_encode_from(input@, 0) =~= lz_encode_from(input@, 0));
    }
    while pos < input.len()
        invariant
            0 <= pos <= input@.len(),
            lz_compressed(input@) == out@ + lz_encode_from(input@, pos as int),
        decreases input@.len() - pos,
    {
        let start = if pos >= WINDOW_SIZE {
            pos - WINDOW_SIZE
        } else {
            0
        };
        let mut best_dist: usize = 0;
        let mut best_len: usize = 0;
        let mut off: usize = start;
        proof {
            assert(start as int == search_start(pos as int));
        }
        while off < pos
            invariant
                start <= off <= pos <= input@.len(),
                (best_dist as int, best_len as int)
                    == best_match_upto(input@, pos as int, start as int, off as int),
                best_len <= MAX_MATCH_LENGTH as usize,
            decreases pos - off,
        {
            let mut length: usize = 0;
            while length < MAX_MATCH_LENGTH as usize
                && length < input.len() - pos
                && input[off + length] == input[pos + length]
                invariant
                    0 <= length <= MAX_MATCH_LENGTH as usize,
                    off < pos <= input@.len(),
                    match_len(input@, off as int, pos as int)
                        == match_len_from(input@, off as int, pos as int, length as int),
                decreases MAX_MATCH_LENGTH as int - length,
            {
                length = length + 1;
            }
            if length > best_len {
                best_dist = pos - off;
                best_len = length;
            }
            off = off + 1;
        }
        proof {
            lemma_best_match_props(input@, pos as int);
        }
        if best_len > 2 {
            proof {
                let bm = best_match(input@, pos as int);
                assert(out@.push(MATCH_TAG).push(best_dist as u8).push(best_len as u8)
                    + lz_encode_from(input@, pos + best_len)
                    =~= out@ + (seq![MATCH_TAG, bm.0 as u8, bm.1 as u8]
                        + lz_encode_from(input@, pos + bm.1)));
            }
            out.push(MATCH_TAG);
            out.push(best_dist as u8);
            out.push(best_len as u8);
            pos = pos + best_len;
        } else {
            proof {
                assert(out@.push(LITERAL_TAG).push(input@[pos as int])
                    + lz_encode_from(input@, pos + 1)
                    =~= out@ + (seq![LITERAL_TAG, input@[pos as int]]
                        + lz_encode_from(input@, pos + 1)));
            }
            out.push(LITERAL_TAG);
            out.push(input[pos]);
            pos = pos + 1;
        }
    }
    out
}

/// Decompresses an LZ77 token stream, expanding literals and matches in
/// order. Succeeds exactly when every token is complete, carries a known tag,
/// and every match reaches back into bytes already decoded; the first
/// offending token decides the error.
pub fn decompress(input: &Vec<u8>) -> (r: Result<Vec<u8>, CodecError>)
    ensures
        r matches Ok(out) ==> lz_decoded(input@) == Ok::<Seq<u8>, CodecError>(out@),
        r matches Err(e) ==> lz_decoded(input@) == Err::<Seq<u8>, CodecError>(e),
{
    let mut out: Vec<u8> = Vec::new();
    let mut pos: usize = 0;
    proof {
        assert(input@.skip(0) =~= input@);
    }
    while pos < input.len()
        invariant
            0 <= pos <= input@.len(),
            lz_decode_from(input@.skip(pos as int), out@) == lz_decoded(input@),
        decreases input@.len() - pos,
    {
        let ghost enc: Seq<u8> = input@.skip(pos as int);
        let tag = input[pos];
        if tag == LITERAL_TAG {
            if input.len() - pos < 2 {
                return Err(CodecError::TruncatedLiteral);
            }
            proof {
                assert(enc.skip(2) =~= input@.skip(pos + 2));
            }
            out.push(input[pos + 1]);
            pos = pos + 2;
        } else if tag == MATCH_TAG {
            if input.len() - pos < 3 {
                return Err(CodecError::TruncatedMatch);
            }
            let dist = input[pos + 1] as usize;
            let len = input[pos + 2] as usize;
            if dist > out.len() || (dist == 0 && len > 0) {
                return Err(CodecError::InvalidDistance);
            }
            proof {
                assert(enc.skip(3) =~= input@.skip(pos + 3));
            }
            let ghost out0: Seq<u8> = out@;
            let mut i: usize = 0;
            while i < len
                invariant
                    0 <= i <= len,
                    len > 0 ==> 1 <= dist,
                    dist <= out0.len(),
                    out@.len() == out0.len() + i,
                    lz_extend(out@, dist as int, (len - i) as int)
                        == lz_extend(out0, dist as int, len as int),
                decreases len - i,
            {
                let idx = out.len() - dist;
                let b = out[idx];
                proof {
                    assert(lz_extend(out@, dist as int, (len - i) as int)
                        == lz_extend(out@.push(out@[out@.len() - dist]), dist as int,
                            (len - (i + 1)) as int));
                }
                out.push(b);
                i = i + 1;
            }
            pos = pos + 3;
        } else {
            return Err(CodecError::UnknownToken);
        }
    }
    proof {
        assert(input@.skip(pos as int) =~= Seq::<u8>::empty());
    }
    Ok(out)
}

/// Copying `l` bytes from `d` places back onto the first `pos` bytes of `s`
/// rebuilds `s` up to `pos + l`, provided the run `d` back matches the run at
/// `pos`: each copied byte lands exactly where the equal byte of `s` stands,
/// so even a copy overlapping its own output stays on `s`.
proof fn lemma_lz_extend_reconstructs(s: Seq<u8>, pos: int, d: int, l: int)
    requires
        1 <= d <= pos,
        0 <= l,
        pos + l <= s.len(),
        forall|j: int| 0 <= j < l ==> s[pos - d + j] == #[trigger] s[pos + j],
    ensures
        lz_extend(s.take(pos), d, l) == s.take(pos + l),
    decreases l,
{
    if l <= 0 {
        assert(s.take(pos) =~= s.take(pos + l));
    } else {
        let out = s.take(pos);
        assert(s[pos - d + 0] == s[pos + 0]);
        assert(out.push(out[out.len() - d]) =~= s.take(pos + 1));
        assert forall|j: int| 0 <= j < l - 1 implies s[(pos + 1) - d + j] == #[trigger] s[(pos
            + 1) + j] by {
            assert(s[pos - d + (j + 1)] == s[pos + (j + 1)]);
        }
        lemma_lz_extend_reconstructs(s, pos + 1, d, l - 1);
    }
}

/// Decoding the tokens the compressor emits from `pos` on, onto the bytes it
/// has already read, rebuilds `s` whole: a literal token appends the byte it
/// names, and a match token's copy stays on `s` because the compressor only
/// emits matches of equal bytes inside the window.
proof fn lemma_lz_encode_decodes(s: Seq<u8>, pos: int)
    requires
        0 <= pos <= s.len(),
    ensures
        lz_decode_from(lz_encode_from(s, pos), s.take(pos)) == Ok::<Seq<u8>, CodecError>(s),
    decreases s.len() - pos,
{
    if pos == s.len() {
        assert(s.take(pos) =~= s);
    } else {
        let bm = best_match(s, pos);
        lemma_best_match_props(s, pos);
        if bm.1 > 2 {
            let rest = lz_encode_from(s, pos + bm.1);
            let enc = seq![MATCH_TAG, bm.0 as u8, bm.1 as u8] + rest;
            assert(lz_encode_from(s, pos) == enc);
            assert(enc[1] == bm.0 as u8 && enc[1] as int == bm.0);
            assert(enc[2] == bm.1 as u8 && enc[2] as int == bm.1);
            assert(enc.skip(3) =~= rest);
            lemma_lz_extend_reconstructs(s, pos, bm.0, bm.1);
            lemma_lz_encode_decodes(s, pos + bm.1);
        } else {
            let rest = lz_encode_from(s, pos + 1);
            let enc = seq![LITERAL_TAG, s[pos]] + rest;
            assert(lz_encode_from(s, pos) == enc);
            assert(enc.skip(2) =~= rest);
            assert(s.take(pos).push(s[pos]) =~= s.take(pos + 1));
            lemma_lz_encode_decodes(s, pos + 1);
        }
    }
}

/// Round trip: decoding the LZ77 encoding of any byte sequence gives the
/// sequence back.
pub proof fn lemma_lz_round_trip(s: Seq<u8>)
    ensures
        lz_decoded(lz_compressed(s)) == Ok::<Seq<u8>, CodecError>(s),
{
    lemma_lz_encode_decodes(s, 0);
    assert(s.take(0) =~= Seq::<u8>::empty());
}

/// When no byte of the scanned range equals the byte at `pos`, no candidate
/// matches even one byte, and the best match is empty.
proof fn lemma_best_match_upto_zero(s: Seq<u8>, pos: int, start: int, end: int)
    requires
        0 <= start <= end <= pos < s.len(),
        forall|off: int| start <= off < end ==> s[off] != s[pos],
    ensures
        best_match_upto(s, pos, start, end) == (0int, 0int),
    decreases end - start,
{
    if end > start {
        lemma_best_match_upto_zero(s, pos, start, end - 1);
        assert(match_len_from(s, end - 1, pos, 0) == 0);
    }
}

/// Below the threshold throughout: when no byte value repeats anywhere in
/// `s`, no match exists at all, and the encoding is one two-byte literal
/// token per input byte — twice the input's length.
pub proof fn lemma_lz_all_literals(s: Seq<u8>)
    requires
        forall|i: int, j: int| 0 <= i < j < s.len() ==> s[i] != s[j],
    ensures
        lz_compressed(s) == Seq::new((2 * s.len()) as nat, |k: int| if k % 2 == 0 {
            LITERAL_TAG
        } else {
            s[k / 2]
        }),
{
    lemma_lz_literals_from(s, 0);
}

/// From any position of an all-distinct sequence on, the compressor emits
/// only literal tokens.
proof fn lemma_lz_literals_from(s: Seq<u8>, pos: int)
    requires
        0 <= pos <= s.len(),
        forall|i: int, j: int| 0 <= i < j < s.len() ==> s[i] != s[j],
    ensures
        lz_encode_from(s, pos) == Seq::new((2 * (s.len() - pos)) as nat, |k: int| if k % 2 == 0 {
            LITERAL_TAG
        } else {
            s[pos + k / 2]
        }),
    decreases s.len() - pos,
{
    let expected = Seq::new((2 * (s.len() - pos)) as nat, |k: int| if k % 2 == 0 {
        LITERAL_TAG
    } else {
        s[pos + k / 2]
    });
    if pos == s.len() {
        assert(lz_encode_from(s, pos) =~= expected);
    } else {
        lemma_best_match_upto_zero(s, pos, search_start(pos), pos);
        lemma_lz_literals_from(s, pos + 1);
        assert(lz_encode_from(s, pos) =~= expected);
    }
}

} // verus!
