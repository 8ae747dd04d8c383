//! Where the files of a created archive lie.

use vstd::prelude::*;

use crate::classify::{pack_le, path_lane, Lane};
use crate::codec::{
    codec_id, codec_of, is_block_of, is_made_at, law_blocks_are_made_at, law_codec_ids, Codec,
    MAX_WORKERS,
};
use crate::contents::{block_contents, contents};
use crate::error::Fault;
use crate::index::{BlockInfo, EntryView, IndexView, Kind, Segment};
use crate::laws::{
    empty_files_are_empty, is_entry_of, is_one_run, is_sound, lemma_created, lemma_dedup,
    lemma_file_packed, lemma_listed, tell_apart,
};
use crate::order::{comes_before, law_order_keeps_sums, sum_at, sum_below};
use crate::pack::{are_stored, is_stored_block, opened_for, pack_file, sealed_up, PackView};
use crate::plan::{
    chosen_lane, entry_le, in_order, is_index_order, is_listing, is_pack_order, packed_upto,
    total_bytes, CandidateView, PackedView, ScanView,
};
use crate::reader::{file_bytes, opened};
use crate::stream::window;
use crate::writer::{
    is_created, lemma_seen, lemma_total_bytes_sum, size_at, WriteOptions, WriteStats,
};

verus! {

/// Where the entries of the index come from: each is another one of those that the walk
/// found and of those that were packed.
proof fn lemma_listed_from(scan: ScanView, p: PackedView, ix: IndexView) -> (from: Seq<usize>)
    requires
        is_listing(scan.entries + p.entries, ix.entries),
    ensures
        is_index_order(scan.entries + p.entries, from),
        ix.entries == in_order(scan.entries + p.entries, from),
        from.no_duplicates(),
{
    let all = scan.entries + p.entries;
    let from = choose|from: Seq<usize>| #[trigger]
        is_index_order(all, from) && ix.entries == in_order(all, from);
    crate::order::lemma_order_distinct(
        all.len(),
        |a: int, b: int| entry_le(all[a], all[b]),
        from,
    );
    from
}

/// Every file that was packed, and was not found to be a known one, was read as announced.
proof fn lemma_sizes_hold(
    cs: Seq<CandidateView>,
    hashes: Seq<Seq<u8>>,
    files: Seq<Seq<u8>>,
    order: Seq<usize>,
    opts: WriteOptions,
    n: nat,
    j: int,
)
    requires
        !opts.dedup,
        0 <= j < n,
        packed_upto(cs, hashes, files, order, opts, n) is Ok,
        cs[order[j] as int].size > 0,
    ensures
        files[order[j] as int].len() == cs[order[j] as int].size,
    decreases n,
{
    if j + 1 < n {
        lemma_sizes_hold(cs, hashes, files, order, opts, (n - 1) as nat, j);
    }
}

/// Entry `k` is that of file `i`, and holds what the file was read as.
pub open spec fn holds_file(
    data: Seq<u8>,
    ix: IndexView,
    scan: ScanView,
    hashes: Seq<Seq<u8>>,
    files: Seq<Seq<u8>>,
    i: int,
    k: int,
) -> bool {
    &&& 0 <= k < ix.entries.len()
    &&& ix.entries[k].kind == Kind::File
    &&& is_entry_of(ix.entries[k], scan.candidates[i], hashes[i])
    &&& contents(data, ix.blocks, ix.entries[k].segments) == Ok::<Seq<u8>, Fault>(files[i])
}

/// Where the index lists the file packed as number `j`.
spec fn listed_at(scan: ScanView, from: Seq<usize>, j: int, k: int) -> bool {
    0 <= k < from.len() && from[k] == scan.entries.len() + j
}

/// The number under which file `i` was packed.
spec fn number_of(order: Seq<usize>, i: int) -> int {
    choose|j: int| 0 <= j < order.len() && order[j] == i
}

/// The position of the entry of file `i`.
spec fn entry_of(scan: ScanView, from: Seq<usize>, order: Seq<usize>, i: int) -> int {
    let j = number_of(order, i);
    choose|k: int| listed_at(scan, from, j, k)
}

/// The entry of file `i` stands where the index lists it, and holds it.
proof fn lemma_own_entry(
    data: Seq<u8>,
    ix: IndexView,
    scan: ScanView,
    hashes: Seq<Seq<u8>>,
    files: Seq<Seq<u8>>,
    order: Seq<usize>,
    p: PackedView,
    from: Seq<usize>,
    opts: WriteOptions,
    i: int,
)
    requires
        is_pack_order(scan.candidates, order),
        packed_upto(scan.candidates, hashes, files, order, opts, scan.candidates.len()) == Ok::<
            PackedView,
            Fault,
        >(p),
        are_stored(data, ix.blocks, sealed_up(p.packing).sealed, opts),
        is_index_order(scan.entries + p.entries, from),
        ix.entries == in_order(scan.entries + p.entries, from),
        files.len() == scan.candidates.len(),
        scan.entries.len() + scan.candidates.len() <= usize::MAX,
        p.entries.len() == scan.candidates.len(),
        empty_files_are_empty(scan.candidates, files),
        opts.dedup ==> tell_apart(hashes, files),
        0 <= i < files.len(),
    ensures
        0 <= number_of(order, i) < order.len(),
        order[number_of(order, i)] == i,
        listed_at(scan, from, number_of(order, i), entry_of(scan, from, order, i)),
        holds_file(data, ix, scan, hashes, files, i, entry_of(scan, from, order, i)),
{
    assert(order.contains(i as usize));
    let j = number_of(order, i);
    let some = choose|q: int| 0 <= q < order.len() && order[q] == i as usize;
    assert(order[some] == i);
    assert(0 <= j < order.len() && order[j] == i);
    let m = (scan.entries.len() + j) as usize;
    assert(from.contains(m));
    let k = choose|k: int| 0 <= k < from.len() && from[k] == m;
    assert(listed_at(scan, from, j, k));
    let own = entry_of(scan, from, order, i);
    assert(listed_at(scan, from, j, own));
    let _ = lemma_file_packed(data, ix, scan, hashes, files, order, p, opts, j);
    assert(ix.entries[own] == (scan.entries + p.entries)[from[own] as int]);
}

/// Every file has an entry of its own, also where one path is archived twice: `at` gives
/// for each file the position of its entry, no position twice.
pub proof fn law_every_file_has_its_entry(
    data: Seq<u8>,
    stats: WriteStats,
    scan: ScanView,
    hashes: Seq<Seq<u8>>,
    files: Seq<Seq<u8>>,
    opts: WriteOptions,
) -> (at: Seq<int>)
    requires
        is_created(data, stats, scan, hashes, files, opts),
        files.len() == scan.candidates.len(),
        scan.entries.len() + scan.candidates.len() <= usize::MAX,
        empty_files_are_empty(scan.candidates, files),
        opts.dedup ==> tell_apart(hashes, files),
    ensures
        at.len() == files.len(),
        at.no_duplicates(),
        opened(data) matches Ok((_, ix)) && forall|i: int|
            0 <= i < at.len() ==> holds_file(data, ix, scan, hashes, files, i, #[trigger] at[i]),
{
    let (ix, p, order) = lemma_created(data, stats, scan, hashes, files, opts);
    let from = lemma_listed_from(scan, p, ix);
    let at = Seq::new(files.len(), |i: int| entry_of(scan, from, order, i));
    assert forall|i: int| 0 <= i < at.len() implies {
        &&& 0 <= number_of(order, i) < order.len()
        &&& order[number_of(order, i)] == i
        &&& listed_at(scan, from, number_of(order, i), #[trigger] at[i])
        &&& holds_file(data, ix, scan, hashes, files, i, at[i])
    } by {
        lemma_own_entry(data, ix, scan, hashes, files, order, p, from, opts, i);
    }
    assert forall|a: int, b: int| 0 <= a < at.len() && 0 <= b < at.len() && a != b implies at[a]
        != at[b] by {
        assert(listed_at(scan, from, number_of(order, a), at[a]));
        assert(listed_at(scan, from, number_of(order, b), at[b]));
    }
    at
}

/// Every file entry is the entry of one of the files, and has no segment, or one: one of
/// the file's length, within its block. Where several files would have this entry, it is
/// the length of each of them.
pub proof fn law_file_has_one_segment(
    data: Seq<u8>,
    stats: WriteStats,
    scan: ScanView,
    hashes: Seq<Seq<u8>>,
    files: Seq<Seq<u8>>,
    opts: WriteOptions,
)
    requires
        is_created(data, stats, scan, hashes, files, opts),
        files.len() == scan.candidates.len(),
        is_sound(scan),
        scan.entries.len() + scan.candidates.len() <= usize::MAX,
        empty_files_are_empty(scan.candidates, files),
        opts.dedup ==> tell_apart(hashes, files),
    ensures
        opened(data) matches Ok((_, ix)) && forall|k: int|
            0 <= k < ix.entries.len() && (#[trigger] ix.entries[k]).kind == Kind::File ==> {
                &&& exists|i: int|
                    0 <= i < files.len() && is_entry_of(
                        ix.entries[k],
                        #[trigger] scan.candidates[i],
                        hashes[i],
                    )
                &&& forall|i: int|
                    0 <= i < files.len() && is_entry_of(
                        ix.entries[k],
                        #[trigger] scan.candidates[i],
                        hashes[i],
                    ) ==> is_one_run(ix.blocks, ix.entries[k].segments, files[i].len())
            },
{
    let (ix, p, order) = lemma_created(data, stats, scan, hashes, files, opts);
    let cs = scan.candidates;
    let from = lemma_listed_from(scan, p, ix);
    assert forall|k: int|
        0 <= k < ix.entries.len() && (#[trigger] ix.entries[k]).kind == Kind::File implies {
        &&& exists|i: int|
            0 <= i < files.len() && is_entry_of(
                ix.entries[k],
                #[trigger] scan.candidates[i],
                hashes[i],
            )
        &&& forall|i: int|
            0 <= i < files.len() && is_entry_of(
                ix.entries[k],
                #[trigger] scan.candidates[i],
                hashes[i],
            ) ==> is_one_run(ix.blocks, ix.entries[k].segments, files[i].len())
    } by {
        let j = lemma_file_at(scan, p, ix, from, k);
        let own = order[j] as int;
        assert(0 <= order[j] < cs.len());
        let _ = lemma_file_packed(data, ix, scan, hashes, files, order, p, opts, j);
        assert(is_entry_of(ix.entries[k], scan.candidates[own], hashes[own]));
        assert forall|i: int|
            0 <= i < files.len() && is_entry_of(
                ix.entries[k],
                #[trigger] scan.candidates[i],
                hashes[i],
            ) implies files[i].len() == files[own].len() by {
            let e = ix.entries[k];
            assert(e.hash == Some(hashes[i]) && e.hash == Some(hashes[own]));
            assert(e.size == cs[i].size && e.size == cs[own].size);
            if opts.dedup {
                assert(hashes[i] == hashes[own]);
            } else if e.size == 0 {
                assert(cs[i].size == 0 && cs[own].size == 0);
            } else {
                assert(order.contains(i as usize));
                let at = choose|at: int| 0 <= at < order.len() && order[at] == i as usize;
                lemma_sizes_hold(cs, hashes, files, order, opts, cs.len(), j);
                lemma_sizes_hold(cs, hashes, files, order, opts, cs.len(), at);
            }
        }
    }
}

/// The number under which the file of an entry was packed.
proof fn lemma_file_at(
    scan: ScanView,
    p: PackedView,
    ix: IndexView,
    from: Seq<usize>,
    k: int,
) -> (j: int)
    requires
        is_sound(scan),
        is_index_order(scan.entries + p.entries, from),
        ix.entries == in_order(scan.entries + p.entries, from),
        0 <= k < ix.entries.len(),
        ix.entries[k].kind == Kind::File,
    ensures
        0 <= j < p.entries.len(),
        j == from[k] - scan.entries.len(),
        ix.entries[k] == p.entries[j],
{
    let all = scan.entries + p.entries;
    assert(0 <= from[k] < all.len());
    assert(ix.entries[k] == all[from[k] as int]);
    if from[k] < scan.entries.len() {
        assert(all[from[k] as int] == scan.entries[from[k] as int]);
    }
    from[k] - scan.entries.len()
}

/// `lanes` gives each block of an archive its lane: the block is encoded as the
/// lane says, and the files in it have that lane, or share their bytes with one
/// that has it.
pub open spec fn are_lanes_of(
    lanes: Seq<Lane>,
    ix: IndexView,
    scan: ScanView,
    hashes: Seq<Seq<u8>>,
    opts: WriteOptions,
) -> bool {
    &&& lanes.len() == ix.blocks.len()
    &&& forall|b: int|
        0 <= b < lanes.len() ==> ix.blocks[b].codec == codec_id(
            opts.lane_choice(#[trigger] lanes[b]).0,
        )
    &&& forall|k: int|
        0 <= k < ix.entries.len() && (#[trigger] ix.entries[k]).kind == Kind::File
            && ix.entries[k].segments.len() > 0 ==> is_in_its_lane(
            lanes,
            ix.entries[k],
            scan,
            hashes,
            opts,
        )
}

/// The block of a file has the lane of the file, or, where files share their bytes, of one
/// with the same digest.
pub open spec fn is_in_its_lane(
    lanes: Seq<Lane>,
    e: EntryView,
    scan: ScanView,
    hashes: Seq<Seq<u8>>,
    opts: WriteOptions,
) -> bool {
    let b = e.segments[0].block;
    &&& e.segments.len() == 1
    &&& b < lanes.len()
    &&& !opts.dedup ==> lanes[b as int] == chosen_lane(opts, e.path)
    &&& exists|j: int|
        {
            &&& 0 <= j < scan.candidates.len()
            &&& e.hash == Some(hashes[j])
            &&& lanes[b as int] == chosen_lane(opts, (#[trigger] scan.candidates[j]).path)
        }
}

/// The lanes of sealed blocks.
spec fn lanes_of(sealed: Seq<(Lane, Seq<u8>)>) -> Seq<Lane> {
    sealed.map_values(|b: (Lane, Seq<u8>)| b.0)
}

/// Every block has one lane. Without the fast lane that is the compressing one,
/// and every block is encoded with the codec asked for.
pub proof fn law_one_lane_per_block(
    data: Seq<u8>,
    stats: WriteStats,
    scan: ScanView,
    hashes: Seq<Seq<u8>>,
    files: Seq<Seq<u8>>,
    opts: WriteOptions,
)
    requires
        is_created(data, stats, scan, hashes, files, opts),
        files.len() == scan.candidates.len(),
        is_sound(scan),
        scan.entries.len() + scan.candidates.len() <= usize::MAX,
        empty_files_are_empty(scan.candidates, files),
        opts.dedup ==> tell_apart(hashes, files),
    ensures
        opened(data) matches Ok((_, ix)) && exists|lanes: Seq<Lane>| #[trigger]
            are_lanes_of(lanes, ix, scan, hashes, opts),
        !opts.fast_lane ==> (opened(data) matches Ok((_, ix)) && forall|b: int|
            0 <= b < ix.blocks.len() ==> (#[trigger] ix.blocks[b]).codec == codec_id(opts.codec)),
{
    let (ix, p, order) = lemma_created(data, stats, scan, hashes, files, opts);
    let cs = scan.candidates;
    let sealed = sealed_up(p.packing).sealed;
    let lanes = lanes_of(sealed);
    assert forall|b: int| 0 <= b < lanes.len() implies ix.blocks[b].codec == codec_id(
        opts.lane_choice(#[trigger] lanes[b]).0,
    ) by {
        assert(lanes[b] == sealed[b].0);
        assert(ix.blocks[b].offset == crate::pack::end_of(ix.blocks, b));
    }
    let from = lemma_listed_from(scan, p, ix);
    assert forall|k: int|
        0 <= k < ix.entries.len() && (#[trigger] ix.entries[k]).kind == Kind::File
            && ix.entries[k].segments.len() > 0 implies is_in_its_lane(
        lanes,
        ix.entries[k],
        scan,
        hashes,
        opts,
    ) by {
        let at = lemma_file_at(scan, p, ix, from, k);
        let j = lemma_file_packed(data, ix, scan, hashes, files, order, p, opts, at);
        let b = ix.entries[k].segments[0].block as int;
        assert(0 <= order[at] < cs.len());
        assert(lanes[b] == sealed[b].0);
        assert(scan.candidates[j].path == cs[j].path);
    }
    assert(are_lanes_of(lanes, ix, scan, hashes, opts));
    if !opts.fast_lane {
        lemma_all_compress(cs, hashes, files, order, opts, cs.len());
        assert forall|b: int| 0 <= b < ix.blocks.len() implies (#[trigger] ix.blocks[b]).codec
            == codec_id(opts.codec) by {
            assert(lanes[b] == sealed[b].0);
            assert(sealed[b].0 == Lane::Compress);
        }
    }
}

/// A block of an archive is what a codec makes at a level: its bytes are what the codec
/// made of bytes that they decode to, and it names that codec.
pub open spec fn is_block_made_at(
    data: Seq<u8>,
    b: BlockInfo,
    codec: Codec,
    level: i32,
    block_size: int,
) -> bool {
    &&& b.offset + b.clen <= data.len()
    &&& codec_of(b.codec) == Some(codec)
    &&& block_contents(data, b) matches Ok(raw) && raw.len() == b.rlen && is_made_at(
        data.subrange(b.offset as int, b.offset + b.clen),
        raw,
        codec,
        level,
        block_size,
    )
}

/// A block was made with full effort: by the codec asked for, at the level asked for.
pub open spec fn is_full_effort(data: Seq<u8>, b: BlockInfo, opts: WriteOptions) -> bool {
    is_block_made_at(data, b, opts.codec, opts.level, opts.block_size as int)
}

/// A block was made for the fast lane: by zstd, at level 1.
pub open spec fn is_fast_block(data: Seq<u8>, b: BlockInfo, opts: WriteOptions) -> bool {
    is_block_made_at(data, b, Codec::Zstd, 1, opts.block_size as int)
}

proof fn lemma_stored_is_made(
    data: Seq<u8>,
    b: BlockInfo,
    lane: Lane,
    raw: Seq<u8>,
    opts: WriteOptions,
)
    requires
        is_stored_block(data, b, lane, raw, opts),
    ensures
        lane == Lane::Compress ==> is_full_effort(data, b, opts),
        lane == Lane::Fast ==> is_fast_block(data, b, opts),
{
    let (codec, level) = opts.lane_choice(lane);
    let frame = window(data, b.offset as int, b.clen as int);
    let workers = choose|workers: u32|
        1 <= workers <= MAX_WORKERS && #[trigger] is_block_of(
            frame,
            raw,
            codec,
            level,
            opts.block_size as int,
            workers,
        );
    law_blocks_are_made_at(frame, raw, codec, level, opts.block_size as int, workers);
    assert(frame =~= data.subrange(b.offset as int, b.offset + b.clen));
    law_codec_ids(codec, b.codec);
}

/// Every block of a created archive was made with full effort or for the fast lane; where
/// the fast lane is off, all of them were made with full effort.
pub proof fn law_blocks_are_made_as_asked(
    data: Seq<u8>,
    stats: WriteStats,
    scan: ScanView,
    hashes: Seq<Seq<u8>>,
    files: Seq<Seq<u8>>,
    opts: WriteOptions,
    b: int,
)
    requires
        is_created(data, stats, scan, hashes, files, opts),
        opened(data) matches Ok((_, ix)) && 0 <= b < ix.blocks.len(),
    ensures
        opened(data) matches Ok((_, ix)) && (is_full_effort(data, ix.blocks[b], opts)
            || is_fast_block(data, ix.blocks[b], opts)),
        !opts.fast_lane ==> (opened(data) matches Ok((_, ix)) && is_full_effort(
            data,
            ix.blocks[b],
            opts,
        )),
{
    let (ix, p, order) = lemma_created(data, stats, scan, hashes, files, opts);
    let cs = scan.candidates;
    let sealed = sealed_up(p.packing).sealed;
    assert(ix.blocks[b].offset == crate::pack::end_of(ix.blocks, b));
    lemma_stored_is_made(data, ix.blocks[b], sealed[b].0, sealed[b].1, opts);
    if !opts.fast_lane {
        lemma_all_compress(cs, hashes, files, order, opts, cs.len());
        assert(sealed[b].0 == Lane::Compress);
    }
}

/// Entry `k` is that of file `i`, and the block that holds its bytes was made for the
/// fast lane if the fast lane is on and file `j` belongs to it, and else with full effort.
pub open spec fn is_made_for(
    data: Seq<u8>,
    ix: IndexView,
    scan: ScanView,
    hashes: Seq<Seq<u8>>,
    opts: WriteOptions,
    i: int,
    k: int,
    j: int,
) -> bool {
    let e = ix.entries[k];
    let b = e.segments[0].block as int;
    &&& 0 <= k < ix.entries.len()
    &&& e.kind == Kind::File
    &&& e.path == scan.candidates[i].path
    &&& e.hash == Some(hashes[i])
    &&& e.segments.len() == 1
    &&& b < ix.blocks.len()
    &&& if opts.fast_lane && path_lane(scan.candidates[j].path) == Lane::Fast {
        is_fast_block(data, ix.blocks[b], opts)
    } else {
        is_full_effort(data, ix.blocks[b], opts)
    }
}

/// The block of a file was made with full effort, by the codec and at the level asked for,
/// unless the fast lane is on and the file belongs to it: then by zstd at level 1. Where
/// deduplication shares the block, that is said of a file with the same digest.
pub proof fn law_files_are_made_as_asked(
    data: Seq<u8>,
    stats: WriteStats,
    scan: ScanView,
    hashes: Seq<Seq<u8>>,
    files: Seq<Seq<u8>>,
    opts: WriteOptions,
    i: int,
)
    requires
        is_created(data, stats, scan, hashes, files, opts),
        files.len() == scan.candidates.len(),
        scan.entries.len() + scan.candidates.len() <= usize::MAX,
        empty_files_are_empty(scan.candidates, files),
        opts.dedup ==> tell_apart(hashes, files),
        0 <= i < files.len(),
        files[i].len() > 0,
    ensures
        opened(data) matches Ok((_, ix)) && exists|k: int, j: int|
            {
                &&& #[trigger] is_made_for(data, ix, scan, hashes, opts, i, k, j)
                &&& 0 <= j < files.len()
                &&& hashes[j] == hashes[i]
                &&& !opts.dedup ==> j == i
            },
{
    let (ix, p, order) = lemma_created(data, stats, scan, hashes, files, opts);
    let sealed = sealed_up(p.packing).sealed;
    assert(order.contains(i as usize));
    let at = choose|at: int| 0 <= at < order.len() && order[at] == i as usize;
    let j = lemma_file_packed(data, ix, scan, hashes, files, order, p, opts, at);
    let k = lemma_listed(scan, p, ix, at);
    let b = ix.entries[k].segments[0].block as int;
    assert(ix.blocks[b].offset == crate::pack::end_of(ix.blocks, b));
    lemma_stored_is_made(data, ix.blocks[b], sealed[b].0, sealed[b].1, opts);
    assert(is_made_for(data, ix, scan, hashes, opts, i, k, j));
}

/// All blocks of a packing state have the compressing lane.
spec fn compresses_all(v: PackView) -> bool {
    &&& v.lane == Lane::Compress
    &&& forall|b: int| 0 <= b < v.sealed.len() ==> (#[trigger] v.sealed[b]).0 == Lane::Compress
}

proof fn lemma_all_compress(
    cs: Seq<CandidateView>,
    hashes: Seq<Seq<u8>>,
    files: Seq<Seq<u8>>,
    order: Seq<usize>,
    opts: WriteOptions,
    n: nat,
)
    requires
        !opts.fast_lane,
        packed_upto(cs, hashes, files, order, opts, n) is Ok,
    ensures
        compresses_all(packed_upto(cs, hashes, files, order, opts, n)->Ok_0.packing),
    decreases n,
{
    if n > 0 {
        lemma_all_compress(cs, hashes, files, order, opts, (n - 1) as nat);
    }
}

/// A place within the blocks comes no later than another.
pub open spec fn no_further(block: int, offset: int, other: int, other_offset: int) -> bool {
    block < other || (block == other && offset <= other_offset)
}

/// One segment ends before another starts.
pub open spec fn ends_before(a: Segment, b: Segment) -> bool {
    no_further(a.block as int, a.offset + a.len, b.block as int, b.offset as int)
}

/// A file that is packed lies behind all that was packed before, and what is
/// packed after it lies behind it.
proof fn lemma_packed_behind(v: PackView, lane: Lane, size: u64, data: Seq<u8>, block_size: int)
    requires
        pack_file(v, lane, size, data, block_size) is Ok,
        v.buf.len() <= block_size <= u64::MAX,
    ensures
        ({
            let (after, segments) = pack_file(v, lane, size, data, block_size)->Ok_0;
            let s = segments[0];
            let (b, o) = (v.sealed.len() as int, v.buf.len() as int);
            let (c, p) = (after.sealed.len() as int, after.buf.len() as int);
            &&& after.buf.len() <= block_size
            &&& no_further(b, o, c, p)
            &&& size > 0 ==> {
                &&& segments.len() == 1
                &&& no_further(b, o, s.block as int, s.offset as int)
                &&& no_further(s.block as int, s.offset + s.len, c, p)
                &&& s.len == size
                &&& s.offset > 0 ==> c == s.block && p > 0
            }
        }),
{
    let v1 = opened_for(v, lane);
    let v2 = sealed_up(v1);
}

/// The places that packing has reached only grow, and each file that is not
/// shared lies between those before and after it.
proof fn lemma_places_grow(
    cs: Seq<CandidateView>,
    hashes: Seq<Seq<u8>>,
    files: Seq<Seq<u8>>,
    order: Seq<usize>,
    opts: WriteOptions,
    m: nat,
    n: nat,
)
    requires
        m <= n,
        packed_upto(cs, hashes, files, order, opts, n) is Ok,
    ensures
        packed_upto(cs, hashes, files, order, opts, m) is Ok,
        ({
            let p = packed_upto(cs, hashes, files, order, opts, m)->Ok_0;
            let q = packed_upto(cs, hashes, files, order, opts, n)->Ok_0;
            &&& q.packing.buf.len() <= opts.block_size
            &&& p.packing.buf.len() <= opts.block_size
            &&& p.entries.len() == m
            &&& q.entries.len() == n
            &&& forall|j: int| 0 <= j < m ==> q.entries[j] == #[trigger] p.entries[j]
            &&& no_further(
                p.packing.sealed.len() as int,
                p.packing.buf.len() as int,
                q.packing.sealed.len() as int,
                q.packing.buf.len() as int,
            )
        }),
    decreases n,
{
    if n > 0 {
        let before = packed_upto(cs, hashes, files, order, opts, (n - 1) as nat)->Ok_0;
        if m < n {
            lemma_places_grow(cs, hashes, files, order, opts, m, (n - 1) as nat);
        } else {
            lemma_places_grow(cs, hashes, files, order, opts, (n - 1) as nat, (n - 1) as nat);
        }
        let k = order[n - 1] as int;
        if !(opts.dedup && before.seen.contains_key(hashes[k])) {
            lemma_packed_behind(
                before.packing,
                chosen_lane(opts, cs[k].path),
                cs[k].size,
                files[k],
                opts.block_size as int,
            );
        }
    }
}

/// Where the file packed as number `j` lies, if its digest was not known by then.
proof fn lemma_between(
    cs: Seq<CandidateView>,
    hashes: Seq<Seq<u8>>,
    files: Seq<Seq<u8>>,
    order: Seq<usize>,
    opts: WriteOptions,
    n: nat,
    j: int,
)
    requires
        0 <= j < n,
        packed_upto(cs, hashes, files, order, opts, n) is Ok,
        cs[order[j] as int].size > 0,
        opts.dedup ==> forall|i: int|
            0 <= i < j ==> hashes[#[trigger] order[i] as int] != hashes[order[j] as int],
    ensures
        ({
            let p = packed_upto(cs, hashes, files, order, opts, j as nat)->Ok_0;
            let q = packed_upto(cs, hashes, files, order, opts, (j + 1) as nat)->Ok_0;
            let last = packed_upto(cs, hashes, files, order, opts, n)->Ok_0;
            let s = last.entries[j].segments[0];
            &&& last.entries[j].segments.len() == 1
            &&& s.len == cs[order[j] as int].size
            &&& s.offset > 0 ==> q.packing.sealed.len() == s.block && q.packing.buf.len() > 0
            &&& no_further(
                p.packing.sealed.len() as int,
                p.packing.buf.len() as int,
                s.block as int,
                s.offset as int,
            )
            &&& no_further(
                s.block as int,
                s.offset + s.len,
                q.packing.sealed.len() as int,
                q.packing.buf.len() as int,
            )
        }),
{
    lemma_places_grow(cs, hashes, files, order, opts, (j + 1) as nat, n);
    lemma_places_grow(cs, hashes, files, order, opts, j as nat, (j + 1) as nat);
    let p = packed_upto(cs, hashes, files, order, opts, j as nat)->Ok_0;
    let q = packed_upto(cs, hashes, files, order, opts, (j + 1) as nat)->Ok_0;
    let last = packed_upto(cs, hashes, files, order, opts, n)->Ok_0;
    let k = order[j] as int;
    if opts.dedup && p.seen.contains_key(hashes[k]) {
        lemma_seen(cs, hashes, files, order, opts, j as nat, hashes[k]);
    }
    lemma_packed_behind(
        p.packing,
        chosen_lane(opts, cs[k].path),
        cs[k].size,
        files[k],
        opts.block_size as int,
    );
    assert(last.entries[j] == q.entries[j]);
}

/// Two files have this digest.
pub open spec fn is_shared(hashes: Seq<Seq<u8>>, h: Option<Seq<u8>>) -> bool {
    exists|a: int, b: int|
        #![trigger hashes[a], hashes[b]]
        {
            &&& 0 <= a < b < hashes.len()
            &&& Some(hashes[a]) == h
            &&& Some(hashes[b]) == h
        }
}

/// A file of its own: it has bytes, and deduplication does not let it share its place.
pub open spec fn is_own_file(e: EntryView, hashes: Seq<Seq<u8>>, opts: WriteOptions) -> bool {
    &&& e.kind == Kind::File
    &&& e.size > 0
    &&& opts.dedup ==> !is_shared(hashes, e.hash)
}

/// One path sorts before another.
pub open spec fn sorts_before(a: Seq<char>, b: Seq<char>) -> bool {
    pack_le(a, b) && !pack_le(b, a)
}

/// A block that is pending, and holds something, does not outgrow the block size.
spec fn is_bounded_at(v: PackView, b: int, block_size: int) -> bool {
    ||| v.sealed.len() == b && 0 < v.buf.len() <= block_size
    ||| v.sealed.len() > b && v.sealed[b].1.len() <= block_size
}

proof fn lemma_pending_bounded(
    cs: Seq<CandidateView>,
    hashes: Seq<Seq<u8>>,
    files: Seq<Seq<u8>>,
    order: Seq<usize>,
    opts: WriteOptions,
    m: nat,
    n: nat,
)
    requires
        m <= n,
        packed_upto(cs, hashes, files, order, opts, n) is Ok,
        packed_upto(cs, hashes, files, order, opts, m) is Ok,
        packed_upto(cs, hashes, files, order, opts, m)->Ok_0.packing.buf.len() > 0,
    ensures
        is_bounded_at(
            packed_upto(cs, hashes, files, order, opts, n)->Ok_0.packing,
            packed_upto(cs, hashes, files, order, opts, m)->Ok_0.packing.sealed.len() as int,
            opts.block_size as int,
        ),
    decreases n,
{
    lemma_places_grow(cs, hashes, files, order, opts, m, n);
    if m < n {
        lemma_places_grow(cs, hashes, files, order, opts, (n - 1) as nat, n);
        lemma_pending_bounded(cs, hashes, files, order, opts, m, (n - 1) as nat);
    }
}

/// Files lie in the order in which they are sorted, and do not overlap: of two files with
/// bytes, neither of which deduplication lets share its place, one ends before the other
/// starts, and it is the one that sorts first. If they lie in the same block, the block
/// decodes to no more than the block size.
pub proof fn law_places_follow_the_sort(
    data: Seq<u8>,
    stats: WriteStats,
    scan: ScanView,
    hashes: Seq<Seq<u8>>,
    files: Seq<Seq<u8>>,
    opts: WriteOptions,
    k: int,
    l: int,
)
    requires
        is_created(data, stats, scan, hashes, files, opts),
        hashes.len() == files.len() == scan.candidates.len(),
        is_sound(scan),
        scan.entries.len() + scan.candidates.len() <= usize::MAX,
        opened(data) matches Ok((_, ix)) && {
            &&& 0 <= k < ix.entries.len()
            &&& 0 <= l < ix.entries.len()
            &&& k != l
            &&& is_own_file(ix.entries[k], hashes, opts)
            &&& is_own_file(ix.entries[l], hashes, opts)
        },
    ensures
        opened(data) matches Ok((_, ix)) && {
            let (e, g) = (ix.entries[k], ix.entries[l]);
            let (s, r) = (e.segments[0], g.segments[0]);
            &&& e.segments.len() == 1
            &&& g.segments.len() == 1
            &&& s.len > 0
            &&& r.len > 0
            &&& ends_before(s, r) || ends_before(r, s)
            &&& sorts_before(e.path, g.path) ==> ends_before(s, r)
            &&& sorts_before(g.path, e.path) ==> ends_before(r, s)
            &&& s.block == r.block ==> s.block < ix.blocks.len()
                && ix.blocks[s.block as int].rlen <= opts.block_size
        },
{
    let (ix, p, order) = lemma_created(data, stats, scan, hashes, files, opts);
    let cs = scan.candidates;
    let from = lemma_listed_from(scan, p, ix);
    let i = lemma_file_at(scan, p, ix, from, k);
    let j = lemma_file_at(scan, p, ix, from, l);
    assert(from[k] != from[l]);
    assert(order.no_duplicates()) by {
        crate::order::lemma_order_distinct(
            cs.len(),
            |x: int, y: int| pack_le(cs[x].path, cs[y].path),
            order,
        );
    }
    if i < j {
        lemma_two_places(data, ix, scan, hashes, files, order, p, opts, i, j);
    } else {
        lemma_two_places(data, ix, scan, hashes, files, order, p, opts, j, i);
    }
}

/// Of two files, the one that was packed first ends before the other starts.
proof fn lemma_two_places(
    data: Seq<u8>,
    ix: IndexView,
    scan: ScanView,
    hashes: Seq<Seq<u8>>,
    files: Seq<Seq<u8>>,
    order: Seq<usize>,
    p: PackedView,
    opts: WriteOptions,
    i: int,
    j: int,
)
    requires
        is_pack_order(scan.candidates, order),
        order.no_duplicates(),
        hashes.len() == files.len() == scan.candidates.len(),
        packed_upto(scan.candidates, hashes, files, order, opts, scan.candidates.len()) == Ok::<
            PackedView,
            Fault,
        >(p),
        crate::pack::are_stored(data, ix.blocks, sealed_up(p.packing).sealed, opts),
        p.entries.len() == scan.candidates.len(),
        forall|m: int|
            0 <= m < p.entries.len() ==> is_entry_of(
                #[trigger] p.entries[m],
                scan.candidates[order[m] as int],
                hashes[order[m] as int],
            ),
        0 <= i < j < p.entries.len(),
        is_own_file(p.entries[i], hashes, opts),
        is_own_file(p.entries[j], hashes, opts),
    ensures
        are_apart(ix, p.entries[i].segments, p.entries[j].segments, opts),
        !sorts_before(p.entries[j].path, p.entries[i].path),
{
    let cs = scan.candidates;
    let (a, b) = (order[i] as int, order[j] as int);
    assert(0 <= order[i] < cs.len() && 0 <= order[j] < cs.len());
    assert(is_entry_of(p.entries[i], cs[a], hashes[a]));
    assert(is_entry_of(p.entries[j], cs[b], hashes[b]));
    assert(comes_before(|x: int, y: int| pack_le(cs[x].path, cs[y].path), a, b));
    if opts.dedup {
        assert forall|m: int| 0 <= m < i implies hashes[#[trigger] order[m] as int] != hashes[a] by {
            lemma_unshared(hashes, order, m, i);
        }
        assert forall|m: int| 0 <= m < j implies hashes[#[trigger] order[m] as int] != hashes[b] by {
            lemma_unshared(hashes, order, m, j);
        }
    }
    lemma_two_owners(data, ix, scan, hashes, files, order, p, opts, i, j);
}

/// Two files have one segment each, the one's ends before the other's starts, and if they
/// lie in the same block, it decodes to no more than the block size.
spec fn are_apart(
    ix: IndexView,
    first: Seq<Segment>,
    second: Seq<Segment>,
    opts: WriteOptions,
) -> bool {
    let (s, r) = (first[0], second[0]);
    &&& first.len() == 1
    &&& second.len() == 1
    &&& s.len > 0
    &&& r.len > 0
    &&& ends_before(s, r)
    &&& s.block == r.block ==> s.block < ix.blocks.len() && ix.blocks[s.block as int].rlen
        <= opts.block_size
}

/// The same of two files that were packed because their digests were not known by then.
proof fn lemma_two_owners(
    data: Seq<u8>,
    ix: IndexView,
    scan: ScanView,
    hashes: Seq<Seq<u8>>,
    files: Seq<Seq<u8>>,
    order: Seq<usize>,
    p: PackedView,
    opts: WriteOptions,
    i: int,
    j: int,
)
    requires
        packed_upto(scan.candidates, hashes, files, order, opts, scan.candidates.len()) == Ok::<
            PackedView,
            Fault,
        >(p),
        crate::pack::are_stored(data, ix.blocks, sealed_up(p.packing).sealed, opts),
        0 <= i < j < scan.candidates.len(),
        scan.candidates[order[i] as int].size > 0,
        scan.candidates[order[j] as int].size > 0,
        opts.dedup ==> forall|m: int|
            0 <= m < i ==> hashes[#[trigger] order[m] as int] != hashes[order[i] as int],
        opts.dedup ==> forall|m: int|
            0 <= m < j ==> hashes[#[trigger] order[m] as int] != hashes[order[j] as int],
    ensures
        are_apart(ix, p.entries[i].segments, p.entries[j].segments, opts),
{
    let cs = scan.candidates;
    let n = cs.len();
    lemma_between(cs, hashes, files, order, opts, n, i);
    lemma_between(cs, hashes, files, order, opts, n, j);
    lemma_places_grow(cs, hashes, files, order, opts, j as nat, n);
    lemma_places_grow(cs, hashes, files, order, opts, (i + 1) as nat, j as nat);
    let s = p.entries[i].segments[0];
    let r = p.entries[j].segments[0];
    assert(ends_before(s, r));
    if s.block == r.block {
        let q = packed_upto(cs, hashes, files, order, opts, (j + 1) as nat)->Ok_0;
        lemma_places_grow(cs, hashes, files, order, opts, (j + 1) as nat, n);
        assert(r.offset > 0);
        assert(q.packing.sealed.len() == r.block && q.packing.buf.len() > 0);
        lemma_pending_bounded(cs, hashes, files, order, opts, (j + 1) as nat, n);
        let sealed = sealed_up(p.packing).sealed;
        assert(sealed[r.block as int].1.len() <= opts.block_size);
        assert(ix.blocks[r.block as int].offset == crate::pack::end_of(
            ix.blocks,
            r.block as int,
        ));
    }
}

/// The number under which the bytes of a file were packed: its own, or, with
/// deduplication, that of the first file with the same digest.
proof fn lemma_owner(
    cs: Seq<CandidateView>,
    hashes: Seq<Seq<u8>>,
    files: Seq<Seq<u8>>,
    order: Seq<usize>,
    opts: WriteOptions,
    n: nat,
    j: int,
) -> (i: int)
    requires
        0 <= j < n,
        packed_upto(cs, hashes, files, order, opts, n) is Ok,
    ensures
        0 <= i <= j,
        !opts.dedup ==> i == j,
        opts.dedup ==> forall|m: int|
            0 <= m < i ==> hashes[#[trigger] order[m] as int] != hashes[order[i] as int],
        ({
            let p = packed_upto(cs, hashes, files, order, opts, n)->Ok_0;
            &&& p.entries[j].segments == p.entries[i].segments
            &&& p.entries[j].segments.len() > 0 ==> cs[order[i] as int].size > 0
        }),
    decreases j,
{
    let p = packed_upto(cs, hashes, files, order, opts, n)->Ok_0;
    if opts.dedup {
        lemma_dedup(cs, hashes, files, order, opts, n);
    }
    let hash = hashes[order[j] as int];
    if opts.dedup && exists|m: int| 0 <= m < j && hashes[#[trigger] order[m] as int] == hash {
        let m = choose|m: int| 0 <= m < j && hashes[#[trigger] order[m] as int] == hash;
        lemma_owner(cs, hashes, files, order, opts, n, m)
    } else {
        lemma_places_grow(cs, hashes, files, order, opts, (j + 1) as nat, n);
        lemma_places_grow(cs, hashes, files, order, opts, j as nat, (j + 1) as nat);
        let before = packed_upto(cs, hashes, files, order, opts, j as nat)->Ok_0;
        let after = packed_upto(cs, hashes, files, order, opts, (j + 1) as nat)->Ok_0;
        if opts.dedup && before.seen.contains_key(hash) {
            lemma_seen(cs, hashes, files, order, opts, j as nat, hash);
        }
        assert(p.entries[j] == after.entries[j]);
        j
    }
}

/// Two files that do not have the same place lie apart.
proof fn lemma_pair_apart(
    data: Seq<u8>,
    ix: IndexView,
    scan: ScanView,
    hashes: Seq<Seq<u8>>,
    files: Seq<Seq<u8>>,
    order: Seq<usize>,
    p: PackedView,
    opts: WriteOptions,
    i: int,
    j: int,
)
    requires
        packed_upto(scan.candidates, hashes, files, order, opts, scan.candidates.len()) == Ok::<
            PackedView,
            Fault,
        >(p),
        crate::pack::are_stored(data, ix.blocks, sealed_up(p.packing).sealed, opts),
        0 <= i < scan.candidates.len(),
        0 <= j < scan.candidates.len(),
        p.entries[i].segments.len() > 0,
        p.entries[j].segments.len() > 0,
        p.entries[i].segments != p.entries[j].segments,
    ensures
        are_apart(ix, p.entries[i].segments, p.entries[j].segments, opts) || are_apart(
            ix,
            p.entries[j].segments,
            p.entries[i].segments,
            opts,
        ),
{
    let cs = scan.candidates;
    let a = lemma_owner(cs, hashes, files, order, opts, cs.len(), i);
    let b = lemma_owner(cs, hashes, files, order, opts, cs.len(), j);
    if a < b {
        lemma_two_owners(data, ix, scan, hashes, files, order, p, opts, a, b);
    } else {
        lemma_two_owners(data, ix, scan, hashes, files, order, p, opts, b, a);
    }
}

/// Nothing lies over anything else: two files that do not have the same place have no byte
/// of it in common, one ends before the other starts. And a block in which they both lie
/// decodes to no more than the block size.
pub proof fn law_places_do_not_overlap(
    data: Seq<u8>,
    stats: WriteStats,
    scan: ScanView,
    hashes: Seq<Seq<u8>>,
    files: Seq<Seq<u8>>,
    opts: WriteOptions,
    k: int,
    l: int,
)
    requires
        is_created(data, stats, scan, hashes, files, opts),
        hashes.len() == files.len() == scan.candidates.len(),
        is_sound(scan),
        scan.entries.len() + scan.candidates.len() <= usize::MAX,
        opened(data) matches Ok((_, ix)) && {
            &&& 0 <= k < ix.entries.len()
            &&& 0 <= l < ix.entries.len()
            &&& ix.entries[k].kind == Kind::File
            &&& ix.entries[l].kind == Kind::File
            &&& ix.entries[k].segments.len() > 0
            &&& ix.entries[l].segments.len() > 0
            &&& ix.entries[k].segments != ix.entries[l].segments
        },
    ensures
        opened(data) matches Ok((_, ix)) && {
            let (s, r) = (ix.entries[k].segments[0], ix.entries[l].segments[0]);
            &&& ix.entries[k].segments.len() == 1
            &&& ix.entries[l].segments.len() == 1
            &&& s.len > 0
            &&& r.len > 0
            &&& ends_before(s, r) || ends_before(r, s)
            &&& s.block == r.block ==> s.block < ix.blocks.len()
                && ix.blocks[s.block as int].rlen <= opts.block_size
        },
{
    let (ix, p, order) = lemma_created(data, stats, scan, hashes, files, opts);
    let from = lemma_listed_from(scan, p, ix);
    let i = lemma_file_at(scan, p, ix, from, k);
    let j = lemma_file_at(scan, p, ix, from, l);
    lemma_pair_apart(data, ix, scan, hashes, files, order, p, opts, i, j);
}

proof fn lemma_unshared(hashes: Seq<Seq<u8>>, order: Seq<usize>, m: int, i: int)
    requires
        0 <= m < i < order.len(),
        order.no_duplicates(),
        0 <= order[m] < hashes.len(),
        0 <= order[i] < hashes.len(),
        !is_shared(hashes, Some(hashes[order[i] as int])),
    ensures
        hashes[order[m] as int] != hashes[order[i] as int],
{
    assert(order[m] != order[i]);
    let (a, b) = (order[m] as int, order[i] as int);
    if hashes[a] == hashes[b] {
        if a < b {
            assert(Some(hashes[a]) == Some(hashes[order[i] as int]));
        } else {
            assert(Some(hashes[b]) == Some(hashes[order[i] as int]));
        }
    }
}

/// The size of an entry, if it is a file.
spec fn file_size_at(entries: Seq<EntryView>) -> spec_fn(int) -> nat {
    |i: int|
        if entries[i].kind == Kind::File {
            entries[i].size as nat
        } else {
            0nat
        }
}

proof fn lemma_file_bytes_sum(entries: Seq<EntryView>, n: nat)
    requires
        n <= entries.len(),
    ensures
        file_bytes(entries.take(n as int)) == sum_below(file_size_at(entries), n),
    decreases n,
{
    if n > 0 {
        lemma_file_bytes_sum(entries, (n - 1) as nat);
        assert(entries.take(n as int).drop_last() =~= entries.take(n - 1));
    }
}

proof fn lemma_file_bytes_at(entries: Seq<EntryView>, order: Seq<usize>, n: nat)
    requires
        n <= order.len(),
        forall|i: int| 0 <= i < order.len() ==> 0 <= #[trigger] order[i] < entries.len(),
    ensures
        file_bytes(in_order(entries, order).take(n as int)) == sum_at(
            file_size_at(entries),
            order.take(n as int),
        ),
    decreases n,
{
    if n > 0 {
        lemma_file_bytes_at(entries, order, (n - 1) as nat);
        let listed = in_order(entries, order);
        assert(listed.take(n as int).drop_last() =~= listed.take(n - 1));
        assert(order.take(n as int).drop_last() =~= order.take(n - 1));
        assert(listed.take(n as int).last() == entries[order[n - 1] as int]);
    }
}

proof fn lemma_file_bytes_add(a: Seq<EntryView>, b: Seq<EntryView>)
    ensures
        file_bytes(a + b) == file_bytes(a) + file_bytes(b),
    decreases b.len(),
{
    if b.len() == 0 {
        assert(a + b =~= a);
    } else {
        assert((a + b).drop_last() =~= a + b.drop_last());
        lemma_file_bytes_add(a, b.drop_last());
    }
}

proof fn lemma_no_file_bytes(entries: Seq<EntryView>)
    requires
        forall|i: int| 0 <= i < entries.len() ==> (#[trigger] entries[i]).kind != Kind::File,
    ensures
        file_bytes(entries) == 0,
    decreases entries.len(),
{
    if entries.len() > 0 {
        let init = entries.drop_last();
        assert forall|i: int| 0 <= i < init.len() implies (#[trigger] init[i]).kind
            != Kind::File by {
            assert(init[i] == entries[i]);
        }
        lemma_no_file_bytes(init);
        assert(entries[entries.len() - 1].kind != Kind::File);
    }
}

proof fn lemma_packed_sizes(
    cs: Seq<CandidateView>,
    entries: Seq<EntryView>,
    order: Seq<usize>,
    n: nat,
)
    requires
        n <= order.len() == entries.len(),
        forall|j: int|
            0 <= j < entries.len() ==> (#[trigger] entries[j]).kind == Kind::File
                && entries[j].size == cs[order[j] as int].size,
    ensures
        file_bytes(entries.take(n as int)) == sum_at(size_at(cs), order.take(n as int)),
    decreases n,
{
    if n > 0 {
        lemma_packed_sizes(cs, entries, order, (n - 1) as nat);
        assert(entries.take(n as int).drop_last() =~= entries.take(n - 1));
        assert(order.take(n as int).drop_last() =~= order.take(n - 1));
        assert(entries[n - 1].kind == Kind::File);
    }
}

/// Listing entries in another order keeps the sum of their sizes.
proof fn lemma_listing_keeps_bytes(all: Seq<EntryView>, from: Seq<usize>)
    requires
        is_index_order(all, from),
        all.len() <= usize::MAX,
    ensures
        file_bytes(in_order(all, from)) == file_bytes(all),
{
    lemma_file_bytes_at(all, from, from.len());
    assert(from.take(from.len() as int) =~= from);
    assert(in_order(all, from).take(from.len() as int) =~= in_order(all, from));
    law_order_keeps_sums(
        all.len(),
        |a: int, b: int| entry_le(all[a], all[b]),
        from,
        file_size_at(all),
    );
    lemma_file_bytes_sum(all, all.len());
    assert(all.take(all.len() as int) =~= all);
}

/// The sizes of the files that were packed add up to those of the files that were found.
proof fn lemma_packed_bytes_add_up(
    cs: Seq<CandidateView>,
    entries: Seq<EntryView>,
    order: Seq<usize>,
)
    requires
        is_pack_order(cs, order),
        entries.len() == cs.len() <= usize::MAX,
        forall|j: int|
            0 <= j < entries.len() ==> (#[trigger] entries[j]).kind == Kind::File
                && entries[j].size == cs[order[j] as int].size,
    ensures
        file_bytes(entries) == total_bytes(cs),
{
    let n = cs.len();
    lemma_packed_sizes(cs, entries, order, n);
    assert(order.take(n as int) =~= order);
    assert(entries.take(n as int) =~= entries);
    law_order_keeps_sums(
        n,
        |a: int, b: int| pack_le(cs[a].path, cs[b].path),
        order,
        size_at(cs),
    );
    lemma_total_bytes_sum(cs, n);
    assert(cs.take(n as int) =~= cs);
}

/// The sizes of the files that an archive lists add up to the input bytes that creating it
/// reports.
pub proof fn law_sizes_add_up(
    data: Seq<u8>,
    stats: WriteStats,
    scan: ScanView,
    hashes: Seq<Seq<u8>>,
    files: Seq<Seq<u8>>,
    opts: WriteOptions,
)
    requires
        is_created(data, stats, scan, hashes, files, opts),
        is_sound(scan),
        scan.entries.len() + scan.candidates.len() <= usize::MAX,
    ensures
        opened(data) matches Ok((_, ix)) && file_bytes(ix.entries) == stats.input_bytes,
{
    let (ix, p, order) = lemma_created(data, stats, scan, hashes, files, opts);
    let cs = scan.candidates;
    let all = scan.entries + p.entries;
    let from = lemma_listed_from(scan, p, ix);
    lemma_listing_keeps_bytes(all, from);
    lemma_file_bytes_add(scan.entries, p.entries);
    lemma_no_file_bytes(scan.entries);
    assert forall|j: int| 0 <= j < p.entries.len() implies (#[trigger] p.entries[j]).kind
        == Kind::File && p.entries[j].size == cs[order[j] as int].size by {
        assert(is_entry_of(p.entries[j], cs[order[j] as int], hashes[order[j] as int]));
    }
    lemma_packed_bytes_add_up(cs, p.entries, order);
}

} // verus!
