//! Run-length encoding: the stream is a sequence of `(count, value)` pairs,
//! each meaning `value` repeated `count` times, with `count` in `1..=255`.
//! A maximal run longer than 255 bytes is split across several pairs.

use vstd::prelude::*;

use crate::CodecError;

verus! {

/// Longest run a single `(count, value)` pair can encode.
pub const MAX_RUN_LENGTH: u8 = 255;

/// The bytes that a pair stream expands to when read two bytes at a time,
/// each pair contributing its value `count` times. A dangling trailing byte
/// contributes nothing; well-formed streams have even length.
pub open spec fn rle_decoded(enc: Seq<u8>) -> Seq<u8>
    decreases enc.len(),
{
    if enc.len() < 2 {
        Seq::empty()
    } else {
        Seq::new(enc[0] as nat, |k: int| enc[1]) + rle_decoded(enc.skip(2))
    }
}

/// The pairs that the greedy left-to-right scan still emits when the pending
/// run is `count` copies of `cur` and the bytes of `s` from `i` on are yet to
/// be read: the pending run grows while bytes equal `cur` and `count` is below
/// the cap, and is flushed as a `[count, cur]` pair otherwise.
pub open spec fn rle_encode_from(s: Seq<u8>, i: int, cur: u8, count: u8) -> Seq<u8>
    decreases s.len() - i,
{
    if i < 0 || i >= s.len() {
        seq![count, cur]
    } else if s[i] == cur && count < MAX_RUN_LENGTH {
        rle_encode_from(s, i + 1, cur, (count + 1) as u8)
    } else {
        seq![count, cur] + rle_encode_from(s, i + 1, s[i], 1u8)
    }
}

/// The run-length encoding of `s`: empty for empty input, else the greedy
/// scan started on a run of one byte, `s[0]`.
pub open spec fn rle_compressed(s: Seq<u8>) -> Seq<u8> {
    if s.len() == 0 {
        Seq::empty()
    } else {
        rle_encode_from(s, 1, s[0], 1u8)
    }
}

/// Compresses `input` by run-length encoding: the output is the `(count,
/// value)` pair stream of `input`'s runs, in order, each maximal run split
/// into pairs of count at most 255. Empty input gives empty output.
pub fn compress(input: &Vec<u8>) -> (out: Vec<u8>)
    ensures
        out@ == rle_compressed(input@),
{
    let mut out: Vec<u8> = Vec::new();
    if input.len() == 0 {
        return out;
    }
    let mut cur: u8 = input[0];
    let mut count: u8 = 1;
    let mut i: usize = 1;
    while i < input.len()
        invariant
            1 <= i <= input@.len(),
            1 <= count,
            rle_compressed(input@) == out@ + rle_encode_from(input@, i as int, cur, count),
        decreases input@.len() - i,
    {
        if input[i] == cur && count < MAX_RUN_LENGTH {
            count = count + 1;
        } else {
            proof {
                assert(out@ + (seq![count, cur] + rle_encode_from(input@, i + 1, input@[i as int], 1u8))
                    =~= (out@ + seq![count, cur]) + rle_encode_from(input@, i + 1, input@[i as int], 1u8));
                assert(out@.push(count).push(cur) =~= out@ + seq![count, cur]);
            }
            out.push(count);
            out.push(cur);
            cur = input[i];
            count = 1;
        }
        i = i + 1;
    }
    proof {
        assert(out@.push(count).push(cur) =~= out@ + seq![count, cur]);
    }
    out.push(count);
    out.push(cur);
    out
}

/// Decompresses a run-length pair stream: each `(count, value)` pair expands
/// to `value` repeated `count` times. Succeeds exactly on even-length input;
/// odd length leaves a count byte with no paired value and is rejected.
pub fn decompress(input: &Vec<u8>) -> (r: Result<Vec<u8>, CodecError>)
    ensures
        r is Ok <==> input@.len() % 2 == 0,
        r matches Ok(out) ==> out@ == rle_decoded(input@),
        r matches Err(e) ==> e == CodecError::MalformedInput,
{
    if input.len() % 2 != 0 {
        return Err(CodecError::MalformedInput);
    }
    let mut out: Vec<u8> = Vec::new();
    let mut i: usize = 0;
    proof {
        assert(input@.skip(0) =~= input@);
        assert(out@ + rle_decoded(input@) =~= rle_decoded(input@));
    }
    while i < input.len()
        invariant
            0 <= i <= input@.len(),
            i % 2 == 0,
            input@.len() % 2 == 0,
            rle_decoded(input@) == out@ + rle_decoded(input@.skip(i as int)),
        decreases input@.len() - i,
    {
        assert(i + 1 < input@.len());
        let count = input[i];
        let value = input[i + 1];
        proof {
            let rest = input@.skip(i as int);
            assert(rest.skip(2) =~= input@.skip(i + 2));
            assert(out@ + (Seq::new(count as nat, |k: int| value) + rle_decoded(input@.skip(i + 2)))
                =~= (out@ + Seq::new(count as nat, |k: int| value)) + rle_decoded(input@.skip(i + 2)));
        }
        let ghost prev: Seq<u8> = out@;
        let mut j: u8 = 0;
        while j < count
            invariant
                j <= count,
                out@ == prev + Seq::new(j as nat, |k: int| value),
            decreases count - j,
        {
            proof {
                assert(out@.push(value) =~= prev + Seq::new((j + 1) as nat, |k: int| value));
            }
            out.push(value);
            j = j + 1;
        }
        i = i + 2;
    }
    proof {
        assert(input@.skip(i as int) =~= Seq::<u8>::empty());
        assert(out@ + rle_decoded(Seq::<u8>::empty()) =~= out@);
    }
    Ok(out)
}

/// A pair prefixed to a stream decodes to its expansion followed by the
/// decoding of the rest.
proof fn lemma_rle_decoded_pair(c: u8, v: u8, rest: Seq<u8>)
    ensures
        rle_decoded(seq![c, v] + rest) == Seq::new(c as nat, |k: int| v) + rle_decoded(rest),
{
    let enc = seq![c, v] + rest;
    assert(enc.skip(2) =~= rest);
    assert(rle_decoded(enc) =~= Seq::new(c as nat, |k: int| v) + rle_decoded(rest));
}

/// The greedy scan's remaining output decodes to the pending run followed by
/// the unread bytes, and holds an even number of bytes.
proof fn lemma_rle_encode_from_decodes(s: Seq<u8>, i: int, cur: u8, count: u8)
    requires
        1 <= i <= s.len(),
        1 <= count,
    ensures
        rle_encode_from(s, i, cur, count).len() % 2 == 0,
        rle_decoded(rle_encode_from(s, i, cur, count))
            == Seq::new(count as nat, |k: int| cur) + s.skip(i),
    decreases s.len() - i,
{
    if i == s.len() {
        assert(seq![count, cur].skip(2) =~= Seq::<u8>::empty());
        assert(rle_decoded(Seq::<u8>::empty()) == Seq::<u8>::empty());
        assert(s.skip(i) =~= Seq::<u8>::empty());
        assert(rle_decoded(seq![count, cur]) =~= Seq::new(count as nat, |k: int| cur) + s.skip(i));
    } else if s[i] == cur && count < MAX_RUN_LENGTH {
        lemma_rle_encode_from_decodes(s, i + 1, cur, (count + 1) as u8);
        assert(Seq::new((count + 1) as nat, |k: int| cur) + s.skip(i + 1)
            =~= Seq::new(count as nat, |k: int| cur) + s.skip(i));
    } else {
        let rest = rle_encode_from(s, i + 1, s[i], 1u8);
        lemma_rle_encode_from_decodes(s, i + 1, s[i], 1u8);
        lemma_rle_decoded_pair(count, cur, rest);
        assert(Seq::new(count as nat, |k: int| cur)
                + (Seq::new(1 as nat, |k: int| s[i]) + s.skip(i + 1))
            =~= Seq::new(count as nat, |k: int| cur) + s.skip(i));
        assert((seq![count, cur] + rest).len() % 2 == 0);
    }
}

/// The scan's remaining output carries a positive count in every pair: runs
/// are flushed only while at least one byte is pending.
proof fn lemma_rle_encode_from_counts(s: Seq<u8>, i: int, cur: u8, count: u8)
    requires
        1 <= i <= s.len(),
        1 <= count,
    ensures
        forall|k: int|
            0 <= k < rle_encode_from(s, i, cur, count).len() && k % 2 == 0
                ==> #[trigger] rle_encode_from(s, i, cur, count)[k] >= 1,
    decreases s.len() - i,
{
    let enc = rle_encode_from(s, i, cur, count);
    if i == s.len() {
        assert(enc[0] == count);
    } else if s[i] == cur && count < MAX_RUN_LENGTH {
        let rest = rle_encode_from(s, i + 1, cur, (count + 1) as u8);
        lemma_rle_encode_from_counts(s, i + 1, cur, (count + 1) as u8);
        assert forall|k: int| 0 <= k < enc.len() && k % 2 == 0 implies #[trigger] enc[k] >= 1 by {
            assert(enc[k] == rest[k]);
        }
    } else {
        let rest = rle_encode_from(s, i + 1, s[i], 1u8);
        lemma_rle_encode_from_counts(s, i + 1, s[i], 1u8);
        assert forall|k: int| 0 <= k < enc.len() && k % 2 == 0 implies #[trigger] enc[k] >= 1 by {
            if k >= 2 {
                assert(enc[k] == rest[k - 2]);
            }
        }
    }
}

/// Token validity: every pair of any encoding holds a count of at least one,
/// so no pair stands for an empty run.
pub proof fn lemma_rle_counts_positive(s: Seq<u8>)
    ensures
        forall|k: int|
            0 <= k < rle_compressed(s).len() && k % 2 == 0
                ==> #[trigger] rle_compressed(s)[k] >= 1,
{
    if s.len() > 0 {
        lemma_rle_encode_from_counts(s, 1, s[0], 1u8);
    }
}

/// Round trip: expanding the run-length encoding of any byte sequence gives
/// the sequence back, and the encoding always has even length.
pub proof fn lemma_rle_round_trip(s: Seq<u8>)
    ensures
        rle_compressed(s).len() % 2 == 0,
        rle_decoded(rle_compressed(s)) == s,
{
    if s.len() == 0 {
        assert(rle_decoded(rle_compressed(s)) =~= s);
    } else {
        lemma_rle_encode_from_decodes(s, 1, s[0], 1u8);
        assert(Seq::new(1 as nat, |k: int| s[0]) + s.skip(1) =~= s);
    }
}

/// Run splitting: a run one byte longer than the cap encodes as exactly two
/// pairs, a full pair of 255 and a pair of 1, whatever the byte value.
pub proof fn lemma_rle_run_split(v: u8)
    ensures
        rle_compressed(Seq::new(256, |k: int| v)) == seq![255u8, v, 1u8, v],
{
    lemma_rle_run_step(v, 1);
}

/// In a run of 256 equal bytes the pending count equals the scan position,
/// so the scan fills the count to 255, flushes, and flushes a final pair of 1.
proof fn lemma_rle_run_step(v: u8, i: int)
    requires
        1 <= i <= 255,
    ensures
        rle_encode_from(Seq::new(256, |k: int| v), i, v, i as u8) == seq![255u8, v, 1u8, v],
    decreases 256 - i,
{
    let s = Seq::new(256, |k: int| v);
    if i < 255 {
        assert(rle_encode_from(s, i, v, i as u8) == rle_encode_from(s, i + 1, v, (i + 1) as u8));
        lemma_rle_run_step(v, i + 1);
    } else {
        assert(rle_encode_from(s, 256, v, 1u8) == seq![1u8, v]);
        assert(rle_encode_from(s, 255, v, 255u8) == seq![255u8, v] + seq![1u8, v]);
        assert(seq![255u8, v] + seq![1u8, v] =~= seq![255u8, v, 1u8, v]);
    }
}

} // verus!
