//! What the blocks of an archive hold, and what a file's segments make of it.

use vstd::prelude::*;

use crate::codec::{codec_of, decoded_block, Codec};
use crate::error::Fault;
use crate::index::{BlockInfo, Segment};
use crate::stream::{lemma_window_of_prefix, window};

verus! {

/// What a block of an archive decodes to, or why it is refused.
pub open spec fn block_contents(data: Seq<u8>, b: BlockInfo) -> Result<Seq<u8>, Fault> {
    match codec_of(b.codec) {
        None => Err(Fault::UnknownCodec(b.codec)),
        Some(codec) => decoded_block(codec, window(data, b.offset as int, b.clen as int), b.rlen),
    }
}

/// What a block of an archive decodes to, by its number.
pub open spec fn numbered_block(data: Seq<u8>, blocks: Seq<BlockInfo>, n: u32) -> Result<
    Seq<u8>,
    Fault,
> {
    if n >= blocks.len() {
        Err(Fault::MissingBlock(n))
    } else {
        block_contents(data, blocks[n as int])
    }
}

/// The run of bytes that a segment names in its decoded block.
pub open spec fn segment_of_block(decoded: Seq<u8>, s: Segment) -> Result<Seq<u8>, Fault> {
    if s.offset + s.len <= decoded.len() {
        Ok(decoded.subrange(s.offset as int, s.offset + s.len))
    } else {
        Err(Fault::SegmentRange)
    }
}

/// The bytes that a segment names, or why they cannot be had.
pub open spec fn segment_contents(data: Seq<u8>, blocks: Seq<BlockInfo>, s: Segment) -> Result<
    Seq<u8>,
    Fault,
> {
    match numbered_block(data, blocks, s.block) {
        Err(f) => Err(f),
        Ok(decoded) => segment_of_block(decoded, s),
    }
}

/// A file's bytes: the concatenation of its segments, in order. The first
/// segment that cannot be had decides.
pub open spec fn contents(data: Seq<u8>, blocks: Seq<BlockInfo>, segments: Seq<Segment>) -> Result<
    Seq<u8>,
    Fault,
>
    decreases segments.len(),
{
    if segments.len() == 0 {
        Ok(Seq::empty())
    } else {
        match contents(data, blocks, segments.drop_last()) {
            Err(f) => Err(f),
            Ok(init) => match segment_contents(data, blocks, segments.last()) {
                Err(f) => Err(f),
                Ok(run) => Ok(init + run),
            },
        }
    }
}

/// Blocks are independently decodable: a block that lies within `data` decodes
/// to the same whatever is written after it.
pub proof fn law_blocks_stay_readable(data: Seq<u8>, more: Seq<u8>, b: BlockInfo)
    requires
        b.offset + b.clen <= data.len(),
    ensures
        block_contents(data + more, b) == block_contents(data, b),
{
    lemma_window_of_prefix(data, more, b.offset as int, b.clen as int);
}

/// The bytes of some segments are those of the first ones and then those of the others; of
/// no segment they are none; and of one they are what that segment names.
pub proof fn law_segments_concatenate(
    data: Seq<u8>,
    blocks: Seq<BlockInfo>,
    a: Seq<Segment>,
    b: Seq<Segment>,
    s: Segment,
)
    ensures
        contents(data, blocks, Seq::empty()) == Ok::<Seq<u8>, Fault>(Seq::empty()),
        contents(data, blocks, seq![s]) == segment_contents(data, blocks, s),
        match (contents(data, blocks, a), contents(data, blocks, b)) {
            (Ok(x), Ok(y)) => contents(data, blocks, a + b) == Ok::<Seq<u8>, Fault>(x + y),
            (Err(f), _) => contents(data, blocks, a + b) == Err::<Seq<u8>, Fault>(f),
            (_, Err(f)) => contents(data, blocks, a + b) == Err::<Seq<u8>, Fault>(f),
        },
    decreases b.len(),
{
    assert(seq![s].drop_last() =~= Seq::<Segment>::empty());
    assert(contents(data, blocks, seq![s].drop_last()) == Ok::<Seq<u8>, Fault>(Seq::empty()));
    if segment_contents(data, blocks, s) is Ok {
        let run = segment_contents(data, blocks, s)->Ok_0;
        assert(Seq::<u8>::empty() + run =~= run);
    }
    if b.len() == 0 {
        assert(a + b =~= a);
        assert(b =~= Seq::<Segment>::empty());
        if contents(data, blocks, a) is Ok {
            let x = contents(data, blocks, a)->Ok_0;
            assert(x + Seq::<u8>::empty() =~= x);
        }
    } else {
        let init = b.drop_last();
        law_segments_concatenate(data, blocks, a, init, s);
        assert((a + b).drop_last() =~= a + init);
        assert((a + b).last() == b.last());
        if contents(data, blocks, a) is Ok && contents(data, blocks, init) is Ok
            && segment_contents(data, blocks, b.last()) is Ok {
            let x = contents(data, blocks, a)->Ok_0;
            let y = contents(data, blocks, init)->Ok_0;
            let z = segment_contents(data, blocks, b.last())->Ok_0;
            assert((x + y) + z =~= x + (y + z));
        }
    }
}

/// A segment names a run of the bytes that its block decodes to: as many as it says, from
/// its offset on. It is refused exactly if there is no such block, or the block does not
/// decode, or the run does not lie in it.
pub proof fn law_segment_names_a_run(data: Seq<u8>, blocks: Seq<BlockInfo>, s: Segment)
    ensures
        s.block >= blocks.len() ==> segment_contents(data, blocks, s) == Err::<Seq<u8>, Fault>(
            Fault::MissingBlock(s.block),
        ),
        s.block < blocks.len() ==> match block_contents(data, blocks[s.block as int]) {
            Err(f) => segment_contents(data, blocks, s) == Err::<Seq<u8>, Fault>(f),
            Ok(decoded) => if s.offset + s.len > decoded.len() {
                segment_contents(data, blocks, s) == Err::<Seq<u8>, Fault>(Fault::SegmentRange)
            } else {
                segment_contents(data, blocks, s) matches Ok(run) && run.len() == s.len && forall|
                    i: int,
                |
                    0 <= i < s.len ==> #[trigger] run[i] == decoded[s.offset + i]
            },
        },
{
}

/// A block is what its codec makes of the bytes at its place, at the length announced for
/// it; a block of an unknown codec is refused.
pub proof fn law_block_is_decoded(data: Seq<u8>, b: BlockInfo)
    ensures
        b.codec > 2 ==> block_contents(data, b) == Err::<Seq<u8>, Fault>(
            Fault::UnknownCodec(b.codec),
        ),
        b.offset + b.clen <= data.len() ==> ({
            let stored = data.subrange(b.offset as int, b.offset + b.clen);
            &&& b.codec == 0 ==> block_contents(data, b) == decoded_block(
                Codec::Store,
                stored,
                b.rlen,
            )
            &&& b.codec == 1 ==> block_contents(data, b) == decoded_block(
                Codec::Zstd,
                stored,
                b.rlen,
            )
            &&& b.codec == 2 ==> block_contents(data, b) == decoded_block(
                Codec::Xz,
                stored,
                b.rlen,
            )
        }),
{
    if b.offset + b.clen <= data.len() {
        assert(window(data, b.offset as int, b.clen as int) =~= data.subrange(
            b.offset as int,
            b.offset + b.clen,
        ));
    }
}

} // verus!
