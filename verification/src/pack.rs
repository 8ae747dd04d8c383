//! Packing files into solid blocks.

use vstd::prelude::*;

use crate::classify::Lane;
use crate::codec::{codec_id, encode_block, is_block_of, is_refused, workers_here, MAX_WORKERS};
use crate::coder::BlockCoder;
use crate::contents::{block_contents, law_blocks_stay_readable};
use crate::error::{Error, Fault};
use crate::index::{header_bytes, BlockInfo, Segment, HEADER_LEN};
use crate::reading::{
    bytes_read, lemma_nothing_read, lemma_piece_read, lemma_read_once, read_all,
    read_fails, read_on, read_since, reads_as, reads_begin, reads_past, Files, Read, CHUNK,
};
use crate::stream::{
    answer_of, lemma_nothing_passed, lemma_passed_on, lemma_window_of_prefix, passed_on, window,
    Output, Sink,
};
use crate::writer::WriteOptions;

verus! {

/// The state of packing: the blocks sealed so far, each with its lane and its
/// uncompressed bytes, and the pending block.
#[verifier::ext_equal]
pub struct PackView {
    pub sealed: Seq<(Lane, Seq<u8>)>,
    pub lane: Lane,
    pub buf: Seq<u8>,
}

/// The pending block sealed, if it holds anything.
pub open spec fn sealed_up(v: PackView) -> PackView {
    if v.buf.len() == 0 {
        v
    } else {
        PackView { sealed: v.sealed.push((v.lane, v.buf)), lane: v.lane, buf: Seq::empty() }
    }
}

/// The pending block, opened for a lane: a change of lane seals it.
pub open spec fn opened_for(v: PackView, lane: Lane) -> PackView {
    if lane == v.lane {
        v
    } else {
        PackView { lane, ..sealed_up(v) }
    }
}

/// Where packing starts.
pub open spec fn pack_start() -> PackView {
    PackView { sealed: Seq::empty(), lane: Lane::Compress, buf: Seq::empty() }
}

/// One file packed. A file without bytes takes no place. A file at or above the
/// block size gets a block of its own. Any other file goes behind those in the
/// pending block, which is sealed first if the file does not fit. `data` is what
/// the file was read as; it must have the announced size.
pub open spec fn pack_file(
    v: PackView,
    lane: Lane,
    size: u64,
    data: Seq<u8>,
    block_size: int,
) -> Result<(PackView, Seq<Segment>), Fault> {
    let v1 = opened_for(v, lane);
    if size == 0 {
        Ok((v, Seq::empty()))
    } else if size >= block_size {
        let v2 = sealed_up(v1);
        if data.len() != size {
            Err(Fault::ShortBlock { got: data.len() as u64, want: size })
        } else if v2.sealed.len() > u32::MAX {
            Err(Fault::TooManyBlocks)
        } else {
            Ok(
                (
                    PackView { sealed: v2.sealed.push((lane, data)), ..v2 },
                    seq![Segment { block: v2.sealed.len() as u32, offset: 0, len: size }],
                ),
            )
        }
    } else {
        let v2 = if v1.buf.len() + size > block_size {
            sealed_up(v1)
        } else {
            v1
        };
        if v2.sealed.len() > u32::MAX {
            Err(Fault::TooManyBlocks)
        } else if data.len() != size {
            Err(Fault::SizeChanged { got: data.len() as u64, want: size })
        } else {
            Ok(
                (
                    PackView { buf: v2.buf + data, ..v2 },
                    seq![
                        Segment {
                            block: v2.sealed.len() as u32,
                            offset: v2.buf.len() as u64,
                            len: size,
                        },
                    ],
                ),
            )
        }
    }
}

/// A file fits into the pending block: it has the block's lane, is smaller than a
/// block, and the block has room for it.
pub open spec fn fits(v: PackView, lane: Lane, size: u64, block_size: int) -> bool {
    lane == v.lane && 0 < size < block_size && v.buf.len() + size <= block_size
}

/// A block is not sealed early: if a file is packed and the pending block is sealed for it,
/// the file has another lane, or is at or above the block size, or would have taken the
/// block above it. A file without bytes changes nothing.
pub proof fn law_no_block_is_sealed_early(
    v: PackView,
    lane: Lane,
    size: u64,
    data: Seq<u8>,
    block_size: int,
)
    requires
        pack_file(v, lane, size, data, block_size) is Ok,
        v.buf.len() > 0,
        pack_file(v, lane, size, data, block_size)->Ok_0.0.sealed.len() > v.sealed.len(),
    ensures
        size > 0,
        lane != v.lane || size >= block_size || v.buf.len() + size > block_size,
{
}

/// Two small files of one lane that fit into a block together, packed one after the other
/// into an empty one, lie there side by side.
pub proof fn law_small_files_share_a_block(
    v: PackView,
    lane: Lane,
    a: Seq<u8>,
    b: Seq<u8>,
    block_size: int,
)
    requires
        0 < a.len(),
        0 < b.len(),
        v.buf.len() == 0,
        v.sealed.len() <= u32::MAX,
        a.len() + b.len() <= block_size <= u64::MAX,
    ensures
        pack_file(v, lane, a.len() as u64, a, block_size) matches Ok((w, at)) && {
            &&& at.len() == 1
            &&& at[0].block == v.sealed.len()
            &&& at[0].offset == 0
            &&& at[0].len == a.len()
            &&& w.lane == lane
            &&& w.buf == a
            &&& pack_file(w, lane, b.len() as u64, b, block_size) matches Ok((x, bt)) && {
                &&& bt.len() == 1
                &&& bt[0].block == v.sealed.len()
                &&& bt[0].offset == a.len()
                &&& bt[0].len == b.len()
                &&& x.sealed == v.sealed
                &&& x.buf == a + b
            }
        },
{
    assert(v.buf =~= Seq::<u8>::empty());
    assert(Seq::<u8>::empty() + a =~= a);
}

/// Whatever is packed next, a file that is read as announced is packed: its bytes lie
/// where its segment says, in the pending block or in a block of their own.
pub proof fn law_file_goes_where_its_segment_says(
    v: PackView,
    lane: Lane,
    data: Seq<u8>,
    block_size: int,
)
    requires
        0 < data.len() <= u64::MAX,
        v.sealed.len() < u32::MAX,
        v.buf.len() <= block_size <= u64::MAX,
    ensures
        pack_file(v, lane, data.len() as u64, data, block_size) matches Ok((w, at)) && {
            let s = at[0];
            let n = s.block as int;
            let held = if n < w.sealed.len() {
                w.sealed[n].1
            } else {
                w.buf
            };
            let its_lane = if n < w.sealed.len() {
                w.sealed[n].0
            } else {
                w.lane
            };
            &&& at.len() == 1
            &&& s.len == data.len()
            &&& n <= w.sealed.len()
            &&& its_lane == lane
            &&& s.offset + s.len <= held.len()
            &&& held.subrange(s.offset as int, s.offset + s.len) == data
            &&& data.len() >= block_size ==> held == data
            &&& data.len() < block_size ==> n == w.sealed.len() && held.len() <= block_size
        },
{
    let (w, at) = pack_file(v, lane, data.len() as u64, data, block_size)->Ok_0;
    let s = at[0];
    let n = s.block as int;
    if n < w.sealed.len() {
        assert(w.sealed[n].1.subrange(0, data.len() as int) =~= data);
    } else {
        assert(w.buf.subrange(s.offset as int, s.offset + s.len) =~= data);
    }
}

/// A block stands in the archive: it is `raw` encoded as its lane says, and
/// decodes to it.
pub open spec fn is_stored_block(
    out: Seq<u8>,
    b: BlockInfo,
    lane: Lane,
    raw: Seq<u8>,
    opts: WriteOptions,
) -> bool {
    let (codec, level) = opts.lane_choice(lane);
    &&& b.offset + b.clen <= out.len()
    &&& b.rlen == raw.len()
    &&& b.codec == codec_id(codec)
    &&& block_contents(out, b) == Ok::<Seq<u8>, Fault>(raw)
    &&& exists|workers: u32|
        1 <= workers <= MAX_WORKERS && #[trigger] is_block_of(
            window(out, b.offset as int, b.clen as int),
            raw,
            codec,
            level,
            opts.block_size as int,
            workers,
        )
}

/// Where the first `n` blocks end in the archive.
pub open spec fn end_of(blocks: Seq<BlockInfo>, n: int) -> int {
    if n <= 0 {
        HEADER_LEN as int
    } else {
        blocks[n - 1].offset + blocks[n - 1].clen
    }
}

/// The sealed blocks stand in the archive one behind the other, right after the
/// header.
pub open spec fn are_stored(
    out: Seq<u8>,
    blocks: Seq<BlockInfo>,
    sealed: Seq<(Lane, Seq<u8>)>,
    opts: WriteOptions,
) -> bool {
    &&& blocks.len() == sealed.len()
    &&& out.len() >= HEADER_LEN
    &&& out.take(HEADER_LEN as int) == header_bytes()
    &&& out.len() >= end_of(blocks, blocks.len() as int)
    &&& forall|i: int|
        0 <= i < blocks.len() ==> {
            &&& (#[trigger] blocks[i]).offset == end_of(blocks, i)
            &&& is_stored_block(out, blocks[i], sealed[i].0, sealed[i].1, opts)
        }
}

/// Stored blocks stay stored whatever is written after them.
pub proof fn lemma_stored_stays(
    out: Seq<u8>,
    more: Seq<u8>,
    blocks: Seq<BlockInfo>,
    sealed: Seq<(Lane, Seq<u8>)>,
    opts: WriteOptions,
)
    requires
        are_stored(out, blocks, sealed, opts),
    ensures
        are_stored(out + more, blocks, sealed, opts),
{
    assert((out + more).take(HEADER_LEN as int) =~= out.take(HEADER_LEN as int));
    assert forall|i: int| 0 <= i < blocks.len() implies {
        &&& (#[trigger] blocks[i]).offset == end_of(blocks, i)
        &&& is_stored_block(out + more, blocks[i], sealed[i].0, sealed[i].1, opts)
    } by {
        let b = blocks[i];
        assert(is_stored_block(out, b, sealed[i].0, sealed[i].1, opts));
        law_blocks_stay_readable(out, more, b);
        lemma_window_of_prefix(out, more, b.offset as int, b.clen as int);
    }
}

/// One more block behind the others.
proof fn lemma_one_more_stored(
    out: Seq<u8>,
    frame: Seq<u8>,
    blocks: Seq<BlockInfo>,
    sealed: Seq<(Lane, Seq<u8>)>,
    b: BlockInfo,
    lane: Lane,
    raw: Seq<u8>,
    opts: WriteOptions,
)
    requires
        are_stored(out, blocks, sealed, opts),
        out.len() == end_of(blocks, blocks.len() as int),
        b.offset == out.len(),
        b.clen == frame.len(),
        is_stored_block(out + frame, b, lane, raw, opts),
    ensures
        are_stored(out + frame, blocks.push(b), sealed.push((lane, raw)), opts),
        end_of(blocks.push(b), blocks.len() as int + 1) == (out + frame).len(),
{
    lemma_stored_stays(out, frame, blocks, sealed, opts);
    let all = blocks.push(b);
    let whole = sealed.push((lane, raw));
    assert forall|i: int| 0 <= i < all.len() implies {
        &&& (#[trigger] all[i]).offset == end_of(all, i)
        &&& is_stored_block(out + frame, all[i], whole[i].0, whole[i].1, opts)
    } by {
        assert(end_of(all, i) == end_of(blocks, i));
        if i < blocks.len() {
            assert(all[i] == blocks[i]);
        }
    }
}

/// Accumulates files into solid blocks and writes them out.
pub struct Packer {
    opts: WriteOptions,
    buf: Vec<u8>,
    /// Lane the pending buffer belongs to, which decides how it is encoded.
    buf_lane: Lane,
    blocks: Vec<BlockInfo>,
    sealed: Ghost<Seq<(Lane, Seq<u8>)>>,
}

impl View for Packer {
    type V = PackView;

    closed spec fn view(&self) -> PackView {
        PackView { sealed: self.sealed@, lane: self.buf_lane, buf: self.buf@ }
    }
}

/// A block of `raw` would outgrow the archive: its length behind `out` is no
/// file offset.
pub open spec fn outgrows(out: Seq<u8>, raw: Seq<u8>, lane: Lane, opts: WriteOptions) -> bool {
    let (codec, level) = opts.lane_choice(lane);
    exists|frame: Seq<u8>, workers: u32|
        {
            &&& #[trigger] is_block_of(
                frame,
                raw,
                codec,
                level,
                opts.block_size as int,
                workers,
            )
            &&& out.len() + frame.len() > u64::MAX
        }
}

/// The codec of the lane may fail to encode a block of `raw`.
pub open spec fn block_refused(raw: Seq<u8>, lane: Lane, opts: WriteOptions) -> bool {
    let (codec, level) = opts.lane_choice(lane);
    exists|workers: u32|
        1 <= workers <= MAX_WORKERS && #[trigger] is_refused(
            raw,
            codec,
            level,
            opts.block_size as int,
            workers,
        )
}

/// Why a block of `raw` cannot be written behind `out`: its codec failed, or the
/// archive would be too long.
pub open spec fn is_write_fault(
    e: Error,
    out: Seq<u8>,
    raw: Seq<u8>,
    lane: Lane,
    opts: WriteOptions,
) -> bool {
    ||| e.fault == Fault::Encoder && block_refused(raw, lane, opts)
    ||| e.fault == Fault::TooLong && outgrows(out, raw, lane, opts)
}

/// A file is being read from its start, or was read to its end.
pub open spec fn is_reading(log: Seq<Read>, k: usize) -> bool {
    reads_begin(log, k) || reads_as(log, k, bytes_read(log))
}

/// What an encoder has made of `fed` would outgrow the archive, which is `out` by then.
pub open spec fn makes_too_much(fed: Seq<u8>, lane: Lane, opts: WriteOptions, out: Seq<u8>) -> bool {
    let (codec, level) = opts.lane_choice(lane);
    exists|coder: BlockCoder, workers: u32, base: Seq<u8>|
        {
            &&& #[trigger] coder.is_for(codec, level, opts.block_size as int, workers)
            &&& #[trigger] base.is_prefix_of(out)
            &&& coder.fed() == fed
            &&& base.len() + coder.made().len() > u64::MAX
        }
}

/// Why a file that streams into a block of its own does not get there: it could not be
/// read, or goes on for ever; it was read to its end, but is not as long as announced,
/// or there is no number left for its block; its codec failed on what was read so far,
/// or has made more of it than the archive can hold; or the sink failed.
pub open spec fn is_stream_fault(
    e: Error,
    size: u64,
    lane: Lane,
    opts: WriteOptions,
    blocks: nat,
    out: Seq<u8>,
    log: Seq<Read>,
    k: usize,
) -> bool {
    ||| e.fault == Fault::Source && read_fails(log, k)
    ||| e.fault == Fault::TooLong && reads_past(log, k)
    ||| {
        &&& reads_as(log, k, bytes_read(log))
        &&& bytes_read(log).len() != size
        &&& e.fault == Fault::ShortBlock { got: bytes_read(log).len() as u64, want: size }
    }
    ||| {
        &&& reads_as(log, k, bytes_read(log))
        &&& bytes_read(log).len() == size
        &&& blocks > u32::MAX
        &&& e.fault == Fault::TooManyBlocks
    }
    ||| e.fault == Fault::Encoder && is_reading(log, k) && block_refused(
        bytes_read(log),
        lane,
        opts,
    )
    ||| e.fault == Fault::TooLong && is_reading(log, k) && makes_too_much(
        bytes_read(log),
        lane,
        opts,
        out,
    )
    ||| e.fault == Fault::Sink && is_reading(log, k)
}

/// A file was added: it was read to its end, unless it was found empty, and what it was
/// read as has been packed.
pub open spec fn is_added(
    log: Seq<Read>,
    k: usize,
    v: PackView,
    lane: Lane,
    size: u64,
    opts: WriteOptions,
    after: PackView,
    segments: Seq<Segment>,
) -> bool {
    &&& if size == 0 {
        log.len() == 0
    } else {
        reads_as(log, k, bytes_read(log))
    }
    &&& pack_file(v, lane, size, bytes_read(log), opts.block_size as int) == Ok::<
        (PackView, Seq<Segment>),
        Fault,
    >((after, segments))
}

/// Why a file cannot be added: it cannot be read, or goes on for ever; it is not as
/// announced, or blocks have run out; the pending block has to be sealed for it and
/// cannot be written; or the file has a block of its own that cannot be written.
pub open spec fn is_add_fault(
    e: Error,
    v: PackView,
    size: u64,
    lane: Lane,
    opts: WriteOptions,
    out: Seq<u8>,
    log: Seq<Read>,
    k: usize,
) -> bool {
    let large = size >= opts.block_size;
    &&& size > 0
    &&& {
        ||| e.fault == Fault::Source && read_fails(log, k)
        ||| e.fault == Fault::TooLong && reads_past(log, k)
        ||| reads_as(log, k, bytes_read(log)) && pack_file(
            v,
            lane,
            size,
            bytes_read(log),
            opts.block_size as int,
        ) == Err::<(PackView, Seq<Segment>), Fault>(e.fault)
        ||| {
            &&& !fits(v, lane, size, opts.block_size as int)
            &&& v.buf.len() > 0
            &&& is_write_fault(e, out, v.buf, v.lane, opts)
            &&& if large {
                log.len() == 0
            } else {
                reads_as(log, k, bytes_read(log))
            }
        }
        ||| large && e.fault == Fault::Encoder && is_reading(log, k) && block_refused(
            bytes_read(log),
            lane,
            opts,
        )
        ||| large && e.fault == Fault::TooLong && is_reading(log, k) && makes_too_much(
            bytes_read(log),
            lane,
            opts,
            out,
        )
        ||| large && e.fault == Fault::Sink && is_reading(log, k)
    }
}

impl Packer {
    /// The options that the packer was made with.
    pub closed spec fn options(self) -> WriteOptions {
        self.opts
    }

    /// The index's list of the sealed blocks.
    pub closed spec fn listed(self) -> Seq<BlockInfo> {
        self.blocks@
    }

    /// The sealed blocks stand in `out`, `out` ends with them, and the pending
    /// block is within the block size.
    pub open spec fn wf(self, out: Seq<u8>) -> bool {
        &&& self@.buf.len() <= self.options().block_size
        &&& are_stored(out, self.listed(), self@.sealed, self.options())
        &&& out.len() == end_of(self.listed(), self.listed().len() as int)
    }

    /// A packer for an archive that holds nothing but its header.
    pub fn new(opts: &WriteOptions) -> (p: Packer)
        ensures
            p.options() == *opts,
            p@ == pack_start(),
            p.listed() == Seq::<BlockInfo>::empty(),
            p.wf(header_bytes()),
    {
        proof {
            crate::index::law_header_round_trip(Seq::empty());
            assert(header_bytes().take(HEADER_LEN as int) =~= header_bytes());
        }
        let p = Packer {
            opts: *opts,
            buf: Vec::new(),
            buf_lane: Lane::Compress,
            blocks: Vec::new(),
            sealed: Ghost(Seq::empty()),
        };
        assert(p@ =~= pack_start());
        p
    }

    /// The index's list of the sealed blocks.
    pub fn into_blocks(self) -> (blocks: Vec<BlockInfo>)
        ensures
            blocks@ == self.listed(),
    {
        self.blocks
    }

    /// Encode `src` as one block and record it.
    fn write_block(&mut self, out: &mut Output, lane: Lane, src: &[u8]) -> (r:
        Result<(), Error>)
        requires
            old(out).wf(),
            old(self).wf(old(out)@),
        ensures
            final(out).wf(),
            final(out).handed_on() == old(out).handed_on(),
            final(self).options() == old(self).options(),
            match r {
                Ok(()) => {
                    &&& final(self).wf(final(out)@)
                    &&& final(self)@ == (PackView {
                        sealed: old(self)@.sealed.push((lane, src@)),
                        ..old(self)@
                    })
                    &&& old(out)@.is_prefix_of(final(out)@)
                    &&& old(self).listed().is_prefix_of(final(self).listed())
                },
                Err(e) => {
                    &&& final(out)@ == old(out)@
                    &&& final(self)@ == old(self)@
                    &&& final(self).listed() == old(self).listed()
                    &&& is_write_fault(e, old(out)@, src@, lane, old(self).options())
                },
            },
    {
        let (codec, level) = self.opts.lane_codec(lane);
        let offset: u64 = out.position();
        let rlen = match encode_block(codec, level, self.opts.block_size, src, out) {
            Ok(n) => n,
            Err(e) => {
                return Err(e);
            },
        };
        proof {
            out.lemma_len();
        }
        let clen: u64 = out.position() - offset;
        let b = BlockInfo { offset, clen, rlen, codec: codec.as_u8() };
        let ghost blocks0 = self.blocks@;
        let ghost sealed0 = self.sealed@;
        let ghost opts = self.opts;
        let ghost out0 = old(out)@;
        self.blocks.push(b);
        self.sealed = Ghost(self.sealed@.push((lane, src@)));
        proof {
            let (frame, workers) = choose|frame: Seq<u8>, workers: u32|
                {
                    &&& out@ == out0 + frame
                    &&& 1 <= workers <= MAX_WORKERS
                    &&& #[trigger] is_block_of(
                        frame,
                        src@,
                        codec,
                        level,
                        opts.block_size as int,
                        workers,
                    )
                    &&& crate::codec::decoded_block(codec, frame, rlen) == Ok::<Seq<u8>, Fault>(
                        src@,
                    )
                };
            assert(out@.subrange(0, out0.len() as int) =~= out0);
            assert(window(out@, offset as int, clen as int) =~= frame);
            crate::codec::law_codec_ids(codec, b.codec);
            assert(is_stored_block(out@, b, lane, src@, opts));
            lemma_one_more_stored(out0, frame, blocks0, sealed0, b, lane, src@, opts);
            assert(self.blocks@.subrange(0, blocks0.len() as int) =~= blocks0);
        }
        Ok(())
    }

    /// Seal the pending buffer into a block, if there is one.
    pub fn flush(&mut self, out: &mut Output) -> (r: Result<(), Error>)
        requires
            old(out).wf(),
            old(self).wf(old(out)@),
        ensures
            final(out).wf(),
            final(out).handed_on() == old(out).handed_on(),
            final(self).options() == old(self).options(),
            old(self)@.buf.len() == 0 ==> r is Ok && final(out)@ == old(out)@ && *final(self)
                == *old(self),
            match r {
                Ok(()) => {
                    &&& final(self).wf(final(out)@)
                    &&& final(self)@ == sealed_up(old(self)@)
                    &&& old(out)@.is_prefix_of(final(out)@)
                    &&& old(self).listed().is_prefix_of(final(self).listed())
                },
                Err(e) => {
                    &&& final(out)@ == old(out)@
                    &&& final(self)@ == old(self)@
                    &&& final(self).listed() == old(self).listed()
                    &&& is_write_fault(
                        e,
                        old(out)@,
                        old(self)@.buf,
                        old(self)@.lane,
                        old(self).options(),
                    )
                },
            },
    {
        if self.buf.len() == 0 {
            return Ok(());
        }
        let mut buf: Vec<u8> = Vec::new();
        buf.append(&mut self.buf);
        assert(buf@ =~= old(self)@.buf);
        let lane = self.buf_lane;
        let written = self.write_block(out, lane, &buf);
        if written.is_err() {
            self.buf.append(&mut buf);
            assert(self.buf@ =~= old(self)@.buf);
        }
        written
    }

    /// Seal the pending buffer if it is of another lane. Sorting makes lanes
    /// contiguous, so a lane change means that the buffer is complete.
    fn turn_to(&mut self, out: &mut Output, lane: Lane) -> (r: Result<(), Error>)
        requires
            old(out).wf(),
            old(self).wf(old(out)@),
        ensures
            final(out).wf(),
            final(out).handed_on() == old(out).handed_on(),
            final(self).options() == old(self).options(),
            final(self).wf(final(out)@),
            old(out)@.is_prefix_of(final(out)@),
            old(self).listed().is_prefix_of(final(self).listed()),
            lane == old(self)@.lane ==> r is Ok && final(out)@ == old(out)@ && *final(self)
                == *old(self),
            match r {
                Ok(()) => final(self)@ == opened_for(old(self)@, lane),
                Err(e) => {
                    &&& final(self)@ == old(self)@
                    &&& old(self)@.buf.len() > 0
                    &&& is_write_fault(
                        e,
                        final(out)@,
                        old(self)@.buf,
                        old(self)@.lane,
                        old(self).options(),
                    )
                },
            },
    {
        proof {
            assert(out@.subrange(0, out@.len() as int) =~= out@);
            assert(self.blocks@.subrange(0, self.blocks@.len() as int) =~= self.blocks@);
        }
        if lane != self.buf_lane {
            match self.flush(out) {
                Ok(()) => {},
                Err(e) => {
                    return Err(e);
                },
            }
            self.buf_lane = lane;
        }
        assert(self@ =~= opened_for(old(self)@, lane));
        Ok(())
    }

    /// Append a file below the block size. Where it fits into the pending block
    /// nothing is written.
    fn add_small(&mut self, out: &mut Output, size: u64, data: &[u8], lane: Lane) -> (r: Result<
        Vec<Segment>,
        Error,
    >)
        requires
            old(out).wf(),
            old(self).wf(old(out)@),
            0 < size < old(self).options().block_size,
        ensures
            final(out).wf(),
            final(out).handed_on() == old(out).handed_on(),
            old(out)@.is_prefix_of(final(out)@),
            final(self).options() == old(self).options(),
            final(self).wf(final(out)@),
            old(self).listed().is_prefix_of(final(self).listed()),
            fits(old(self)@, lane, size, old(self).options().block_size as int) ==> final(out)@
                == old(out)@ && final(self).listed() == old(self).listed(),
            match r {
                Ok(segments) => pack_file(
                    old(self)@,
                    lane,
                    size,
                    data@,
                    old(self).options().block_size as int,
                ) == Ok::<(PackView, Seq<Segment>), Fault>((final(self)@, segments@)),
                Err(e) => {
                    ||| pack_file(
                        old(self)@,
                        lane,
                        size,
                        data@,
                        old(self).options().block_size as int,
                    ) == Err::<(PackView, Seq<Segment>), Fault>(e.fault)
                    ||| {
                        &&& !fits(
                            old(self)@,
                            lane,
                            size,
                            old(self).options().block_size as int,
                        )
                        &&& old(self)@.buf.len() > 0
                        &&& is_write_fault(
                            e,
                            final(out)@,
                            old(self)@.buf,
                            old(self)@.lane,
                            old(self).options(),
                        )
                    }
                },
            },
    {
        match self.turn_to(out, lane) {
            Ok(()) => {},
            Err(e) => {
                return Err(e);
            },
        }
        if size > (self.opts.block_size - self.buf.len()) as u64 {
            match self.flush(out) {
                Ok(()) => {},
                Err(e) => {
                    return Err(e);
                },
            }
        }
        if self.blocks.len() as u64 > u32::MAX as u64 {
            return Err(Error::new(Fault::TooManyBlocks));
        }
        if data.len() as u64 != size {
            return Err(Error::new(Fault::SizeChanged { got: data.len() as u64, want: size }));
        }
        let mut segments: Vec<Segment> = Vec::new();
        segments.push(
            Segment { block: self.blocks.len() as u32, offset: self.buf.len() as u64, len: size },
        );
        let ghost before = self.buf@;
        self.buf.extend_from_slice(data);
        assert(self.buf@ =~= before + data@);
        Ok(segments)
    }

    /// Encode a file as one block and record it. The file is read piece by piece, and
    /// what has been made of it is handed on to `sink` as it comes.
    fn stream_block<R: Files, S: Sink>(
        &mut self,
        out: &mut Output,
        size: u64,
        lane: Lane,
        files: &mut R,
        k: usize,
        sink: &mut S,
    ) -> (r: Result<u32, Error>)
        requires
            old(out).wf(),
            old(self).wf(old(out)@),
        ensures
            final(out).wf(),
            old(out)@.is_prefix_of(final(out)@),
            final(self).options() == old(self).options(),
            read_on(*old(files), *final(files)),
            passed_on(*old(sink), *final(sink), *old(out), *final(out)),
            (final(sink).failures() != old(sink).failures()) == (r matches Err(e) && e.fault
                == Fault::Sink),
            match r {
                Ok(block) => {
                    let log = read_since(*old(files), *final(files));
                    &&& final(self).wf(final(out)@)
                    &&& reads_as(log, k, bytes_read(log))
                    &&& bytes_read(log).len() == size
                    &&& block == old(self)@.sealed.len()
                    &&& final(self)@ == (PackView {
                        sealed: old(self)@.sealed.push((lane, bytes_read(log))),
                        ..old(self)@
                    })
                    &&& old(self).listed().is_prefix_of(final(self).listed())
                },
                Err(e) => {
                    &&& *final(self) == *old(self)
                    &&& is_stream_fault(
                        e,
                        size,
                        lane,
                        old(self).options(),
                        old(self).listed().len(),
                        final(out)@,
                        read_since(*old(files), *final(files)),
                        k,
                    )
                },
            },
    {
        let ghost opts = self.opts;
        let ghost out0 = out@;
        let (codec, level) = self.opts.lane_codec(lane);
        let block_size: usize = self.opts.block_size;
        let offset: u64 = out.position();
        let workers = workers_here();
        proof {
            lemma_nothing_read(*files);
            lemma_nothing_passed(*sink, *out, *out);
            assert(out0.subrange(0, out0.len() as int) =~= out0);
            assert(out0 + Seq::<u8>::empty() =~= out0);
        }
        let mut coder = match BlockCoder::begin(codec, level, block_size, workers) {
            Ok(coder) => coder,
            Err(e) => {
                assert(block_refused(Seq::<u8>::empty(), lane, opts));
                return Err(e);
            },
        };
        let mut taken: u64 = 0;
        loop
            invariant_except_break
                reads_begin(read_since(*old(files), *files), k),
            invariant
                out.wf(),
                opts == self.opts,
                *self == *old(self),
                old(out)@ == out0,
                codec == opts.lane_choice(lane).0,
                level == opts.lane_choice(lane).1,
                block_size == opts.block_size,
                1 <= workers <= MAX_WORKERS,
                read_on(*old(files), *files),
                coder.fed() == bytes_read(read_since(*old(files), *files)),
                coder.open(),
                coder.is_for(codec, level, block_size as int, workers),
                taken == coder.fed().len(),
                out@ == out0 + coder.made(),
                out0.is_prefix_of(out@),
                passed_on(*old(sink), *sink, *old(out), *out),
                sink.failures() == old(sink).failures(),
            ensures
                reads_as(read_since(*old(files), *files), k, coder.fed()),
            decreases u64::MAX - taken,
        {
            let ghost mid = *files;
            let ghost log = read_since(*old(files), mid);
            let reply = files.read(k, taken, CHUNK);
            proof {
                let a = Read { file: k, offset: taken, len: CHUNK, answer: answer_of(reply) };
                lemma_read_once(*old(files), mid, *files, a);
                lemma_piece_read(log, k, a);
            }
            let chunk = match reply {
                Ok(chunk) => chunk,
                Err(e) => {
                    return Err(Error::io(Fault::Source, e));
                },
            };
            if chunk.len() == 0 {
                break;
            }
            if chunk.len() as u64 > u64::MAX - taken {
                return Err(Error::new(Fault::TooLong));
            }
            let ghost now = bytes_read(read_since(*old(files), *files));
            let piece = match coder.feed(&chunk) {
                Ok(piece) => piece,
                Err(e) => {
                    assert(block_refused(now, lane, opts));
                    return Err(e);
                },
            };
            let ghost o1 = *out;
            match out.write(&piece) {
                Ok(()) => {},
                Err(e) => {
                    proof {
                        assert(makes_too_much(now, lane, opts, out@));
                        lemma_nothing_passed(*sink, o1, *out);
                        lemma_passed_on(*old(sink), *sink, *sink, *old(out), o1, *out);
                    }
                    return Err(e);
                },
            }
            let ghost (k1, o2) = (*sink, *out);
            proof {
                assert(out@ =~= out0 + coder.made());
                assert(out@.subrange(0, out0.len() as int) =~= out0);
                lemma_nothing_passed(*sink, o1, o2);
                lemma_passed_on(*old(sink), *sink, *sink, *old(out), o1, o2);
            }
            let drained = out.drain(sink);
            proof {
                lemma_passed_on(*old(sink), k1, *sink, *old(out), o2, *out);
            }
            match drained {
                Ok(()) => {},
                Err(e) => {
                    return Err(e);
                },
            }
            taken = taken + chunk.len() as u64;
        }
        let ghost data = coder.fed();
        let rest = match coder.close() {
            Ok(rest) => rest,
            Err(e) => {
                assert(block_refused(data, lane, opts));
                return Err(e);
            },
        };
        let ghost o1 = *out;
        match out.write(&rest) {
            Ok(()) => {},
            Err(e) => {
                proof {
                    assert(makes_too_much(data, lane, opts, out@));
                    lemma_nothing_passed(*sink, o1, *out);
                    lemma_passed_on(*old(sink), *sink, *sink, *old(out), o1, *out);
                }
                return Err(e);
            },
        }
        proof {
            assert(out@ =~= out0 + coder.made());
            assert(out@.subrange(0, out0.len() as int) =~= out0);
            lemma_nothing_passed(*sink, o1, *out);
            lemma_passed_on(*old(sink), *sink, *sink, *old(out), o1, *out);
        }
        if taken != size {
            return Err(Error::new(Fault::ShortBlock { got: taken, want: size }));
        }
        if self.blocks.len() as u64 > u32::MAX as u64 {
            return Err(Error::new(Fault::TooManyBlocks));
        }
        let block: u32 = self.blocks.len() as u32;
        proof {
            out.lemma_len();
        }
        let clen: u64 = out.position() - offset;
        let b = BlockInfo { offset, clen, rlen: size, codec: codec.as_u8() };
        let ghost blocks0 = self.blocks@;
        let ghost sealed0 = self.sealed@;
        self.blocks.push(b);
        self.sealed = Ghost(self.sealed@.push((lane, data)));
        proof {
            let frame = coder.made();
            assert(window(out@, offset as int, clen as int) =~= frame);
            crate::codec::law_codec_ids(codec, b.codec);
            assert(is_block_of(frame, data, codec, level, block_size as int, workers));
            assert(is_stored_block(out@, b, lane, data, opts));
            lemma_one_more_stored(out0, frame, blocks0, sealed0, b, lane, data, opts);
            assert(self.blocks@.subrange(0, blocks0.len() as int) =~= blocks0);
        }
        Ok(block)
    }

    /// Append one file, returning the segments describing where it landed. `size` is
    /// the size that the file had when it was found, and `files` gives its bytes. A file
    /// at or above the block size streams straight into a block of its own, so that no
    /// more than a piece of it is held at once; any other goes into the pending block,
    /// and where it fits there nothing is written.
    pub fn add<R: Files, S: Sink>(
        &mut self,
        out: &mut Output,
        size: u64,
        lane: Lane,
        files: &mut R,
        k: usize,
        sink: &mut S,
    ) -> (r: Result<Vec<Segment>, Error>)
        requires
            old(out).wf(),
            old(self).wf(old(out)@),
        ensures
            final(out).wf(),
            old(out)@.is_prefix_of(final(out)@),
            final(self).options() == old(self).options(),
            old(self).listed().is_prefix_of(final(self).listed()),
            read_on(*old(files), *final(files)),
            passed_on(*old(sink), *final(sink), *old(out), *final(out)),
            (final(sink).failures() != old(sink).failures()) == (r matches Err(e) && e.fault
                == Fault::Sink),
            r is Ok || size < old(self).options().block_size ==> final(self).wf(final(out)@),
            size == 0 ==> {
                &&& r is Ok
                &&& final(out)@ == old(out)@
                &&& *final(self) == *old(self)
                &&& *final(files) == *old(files)
            },
            fits(old(self)@, lane, size, old(self).options().block_size as int) ==> final(out)@
                == old(out)@ && final(self).listed() == old(self).listed(),
            size < old(self).options().block_size ==> final(out).handed_on()
                == old(out).handed_on() && *final(sink) == *old(sink),
            match r {
                Ok(segments) => is_added(
                    read_since(*old(files), *final(files)),
                    k,
                    old(self)@,
                    lane,
                    size,
                    old(self).options(),
                    final(self)@,
                    segments@,
                ),
                Err(e) => is_add_fault(
                    e,
                    old(self)@,
                    size,
                    lane,
                    old(self).options(),
                    final(out)@,
                    read_since(*old(files), *final(files)),
                    k,
                ),
            },
    {
        let ghost v = self@;
        let ghost bs = self.opts.block_size as int;
        proof {
            lemma_nothing_read(*files);
            lemma_nothing_passed(*sink, *out, *out);
            assert(out@.subrange(0, out@.len() as int) =~= out@);
            assert(self.blocks@.subrange(0, self.blocks@.len() as int) =~= self.blocks@);
        }
        if size == 0 {
            let segments: Vec<Segment> = Vec::new();
            assert(segments@ =~= Seq::<Segment>::empty());
            return Ok(segments);
        }
        if size < self.opts.block_size as u64 {
            let data = match read_all(files, k) {
                Ok(data) => data,
                Err(e) => {
                    return Err(e);
                },
            };
            let added = self.add_small(out, size, &data, lane);
            proof {
                lemma_nothing_passed(*sink, *old(out), *out);
            }
            return added;
        }
        match self.turn_to(out, lane) {
            Ok(()) => {},
            Err(e) => {
                proof {
                    lemma_nothing_passed(*sink, *old(out), *out);
                }
                return Err(e);
            },
        }
        match self.flush(out) {
            Ok(()) => {},
            Err(e) => {
                proof {
                    lemma_nothing_passed(*sink, *old(out), *out);
                }
                return Err(e);
            },
        }
        let ghost (k1, o1) = (*sink, *out);
        proof {
            lemma_nothing_passed(*sink, *old(out), *out);
        }
        let streamed = self.stream_block(out, size, lane, files, k, sink);
        proof {
            lemma_passed_on(*old(sink), k1, *sink, *old(out), o1, *out);
        }
        let block = match streamed {
            Ok(block) => block,
            Err(e) => {
                return Err(e);
            },
        };
        let mut segments: Vec<Segment> = Vec::new();
        segments.push(Segment { block, offset: 0, len: size });
        proof {
            let data = bytes_read(read_since(*old(files), *files));
            assert(pack_file(v, lane, size, data, bs) == Ok::<(PackView, Seq<Segment>), Fault>(
                (self@, segments@),
            ));
        }
        Ok(segments)
    }
}

} // verus!
