//! What holds of an archive as a whole: what was written is read back.

use vstd::prelude::*;

use crate::classify::{path_lane, Lane};
use crate::codec::codec_id;
use crate::contents::{block_contents, contents, numbered_block, segment_contents};
use crate::digest::blake3_of;
use crate::error::Fault;
use crate::index::{
    footer_bytes, header_bytes, index_appended, index_in, index_read, is_stored_index,
    law_footer_round_trip,
    law_header_round_trip, BlockInfo, EntryView, Footer, IndexView, Kind, Segment, FOOTER_LEN,
    HEADER_LEN,
};
use crate::order::{law_order_keeps_sums, sum_at, sum_below};
use crate::pack::{are_stored, end_of, is_stored_block, opened_for, pack_file, sealed_up, PackView};
use crate::paths::path_fault;
use crate::plan::{
    chosen_lane, count_kind, digests_of, file_entry, in_order, is_archive_of, is_finished,
    is_index_order, is_listing, is_pack_order, packed_upto, packs_to, rank, total_bytes, walked,
    walked_all, CandidateView, Item, PackedView, ScanView,
};
use crate::reader::{checked_contents, first_bad_block, first_fault, opened, verifies_to};
use crate::report::raw_bytes;
use crate::select::{chosen, is_block_order, law_block_order, lemma_chosen};
use crate::stream::window;
use crate::writer::{
    are_stats_of, is_created, lemma_total_bytes_sum, size_at, WriteOptions, WriteStats,
};

verus! {

/// A finished archive opens, and gives its index back. Its footer says where the index
/// lies: right before the footer, and it is not empty.
pub proof fn law_finished_archive_opens(data: Seq<u8>, end: int, ix: IndexView)
    requires
        HEADER_LEN <= end <= data.len(),
        data.take(HEADER_LEN as int) == header_bytes(),
        is_finished(data, end, ix),
    ensures
        opened(data) matches Ok((f, got)) && {
            &&& got == ix
            &&& f.clen > 0
            &&& f.offset == end
            &&& f.offset + f.clen + FOOTER_LEN == data.len()
        },
{
    let body = data.take(end);
    let (mid, f) = choose|mid: Seq<u8>, f: Footer|
        {
            &&& #[trigger] index_appended(data.take(end), mid, f@, ix)
            &&& data == mid + footer_bytes(f@)
        };
    let packed = choose|packed: Seq<u8>|
        {
            &&& mid == body + packed
            &&& #[trigger] is_stored_index(packed, f@, ix, body.len())
            &&& index_read(f@, packed) == Ok::<IndexView, Fault>(ix)
        };
    law_header_round_trip(Seq::empty());
    assert(header_bytes() + Seq::<u8>::empty() =~= header_bytes());
    assert(window(data, 0, HEADER_LEN as int) =~= header_bytes());
    law_footer_round_trip(f@);
    assert(window(data, data.len() - FOOTER_LEN, FOOTER_LEN as int) =~= footer_bytes(f@));
    assert(window(data, f@.offset as int, f@.clen as int) =~= packed);
}

/// The blocks of a packing state, the pending one last.
spec fn held(v: PackView) -> Seq<(Lane, Seq<u8>)> {
    v.sealed.push((v.lane, v.buf))
}

/// Blocks have only grown at their ends, and new ones have come.
spec fn grows(a: Seq<(Lane, Seq<u8>)>, b: Seq<(Lane, Seq<u8>)>) -> bool {
    &&& a.len() <= b.len()
    &&& forall|i: int|
        0 <= i < a.len() ==> {
            &&& (#[trigger] a[i]).1.len() <= b[i].1.len()
            &&& b[i].1.take(a[i].1.len() as int) == a[i].1
            &&& a[i].1.len() > 0 ==> b[i].0 == a[i].0
        }
}

/// The segments name `data` within the blocks: none for no data, else one, in a
/// block of the lane.
spec fn lies_in(h: Seq<(Lane, Seq<u8>)>, segments: Seq<Segment>, data: Seq<u8>, lane: Lane) -> bool {
    if data.len() == 0 {
        segments.len() == 0
    } else {
        let s = segments[0];
        &&& segments.len() == 1
        &&& s.len == data.len()
        &&& s.block < h.len()
        &&& s.offset + s.len <= h[s.block as int].1.len()
        &&& h[s.block as int].1.subrange(s.offset as int, s.offset + s.len) == data
        &&& h[s.block as int].0 == lane
    }
}

proof fn lemma_grows_transitive(
    a: Seq<(Lane, Seq<u8>)>,
    b: Seq<(Lane, Seq<u8>)>,
    c: Seq<(Lane, Seq<u8>)>,
)
    requires
        grows(a, b),
        grows(b, c),
    ensures
        grows(a, c),
{
    assert forall|i: int| 0 <= i < a.len() implies {
        &&& (#[trigger] a[i]).1.len() <= c[i].1.len()
        &&& c[i].1.take(a[i].1.len() as int) == a[i].1
        &&& a[i].1.len() > 0 ==> c[i].0 == a[i].0
    } by {
        assert(b[i].1.take(a[i].1.len() as int) == a[i].1);
        assert(c[i].1.take(b[i].1.len() as int) == b[i].1);
        assert(c[i].1.take(a[i].1.len() as int) =~= b[i].1.take(a[i].1.len() as int));
    }
}

proof fn lemma_lies_in_grown(
    a: Seq<(Lane, Seq<u8>)>,
    b: Seq<(Lane, Seq<u8>)>,
    segments: Seq<Segment>,
    data: Seq<u8>,
    lane: Lane,
)
    requires
        grows(a, b),
        lies_in(a, segments, data, lane),
    ensures
        lies_in(b, segments, data, lane),
{
    if data.len() > 0 {
        let s = segments[0];
        let x = a[s.block as int].1;
        let y = b[s.block as int].1;
        assert(y.take(x.len() as int) == x);
        assert(y.subrange(s.offset as int, s.offset + s.len) =~= x.subrange(
            s.offset as int,
            s.offset + s.len,
        )) by {
            assert forall|k: int| s.offset <= k < s.offset + s.len implies #[trigger] y[k] == x[k] by {
                assert(y.take(x.len() as int)[k] == x[k]);
            }
        }
    }
}

proof fn lemma_sealing_grows(v: PackView)
    ensures
        grows(held(v), held(sealed_up(v))),
{
    let a = held(v);
    let b = held(sealed_up(v));
    assert forall|i: int| 0 <= i < a.len() implies {
        &&& (#[trigger] a[i]).1.len() <= b[i].1.len()
        &&& b[i].1.take(a[i].1.len() as int) == a[i].1
        &&& a[i].1.len() > 0 ==> b[i].0 == a[i].0
    } by {
        assert(b[i].1.take(a[i].1.len() as int) =~= a[i].1);
    }
}

proof fn lemma_opening_grows(v: PackView, lane: Lane)
    ensures
        grows(held(v), held(opened_for(v, lane))),
{
    lemma_sealing_grows(v);
    let a = held(v);
    let b = held(opened_for(v, lane));
    assert forall|i: int| 0 <= i < a.len() implies {
        &&& (#[trigger] a[i]).1.len() <= b[i].1.len()
        &&& b[i].1.take(a[i].1.len() as int) == a[i].1
        &&& a[i].1.len() > 0 ==> b[i].0 == a[i].0
    } by {
        assert(b[i].1.take(a[i].1.len() as int) =~= a[i].1);
    }
}

/// Packing a file keeps every other file in place, and puts this one where its
/// segments say.
proof fn lemma_pack_file(v: PackView, lane: Lane, size: u64, data: Seq<u8>, block_size: int)
    requires
        pack_file(v, lane, size, data, block_size) is Ok,
        size == 0 ==> data.len() == 0,
        block_size <= u64::MAX,
    ensures
        ({
            let (after, segments) = pack_file(v, lane, size, data, block_size)->Ok_0;
            &&& grows(held(v), held(after))
            &&& lies_in(held(after), segments, data, lane)
        }),
{
    let (after, segments) = pack_file(v, lane, size, data, block_size)->Ok_0;
    if size == 0 {
        assert forall|i: int| 0 <= i < held(v).len() implies held(v)[i].1.take(
            (#[trigger] held(v)[i]).1.len() as int,
        ) == held(v)[i].1 by {
            assert(held(v)[i].1.take(held(v)[i].1.len() as int) =~= held(v)[i].1);
        }
    } else {
        let v1 = opened_for(v, lane);
        lemma_opening_grows(v, lane);
        if size >= block_size {
            let v2 = sealed_up(v1);
            lemma_sealing_grows(v1);
            lemma_grows_transitive(held(v), held(v1), held(v2));
            let a = held(v2);
            let b = held(after);
            assert forall|i: int| 0 <= i < a.len() implies {
                &&& (#[trigger] a[i]).1.len() <= b[i].1.len()
                &&& b[i].1.take(a[i].1.len() as int) == a[i].1
                &&& a[i].1.len() > 0 ==> b[i].0 == a[i].0
            } by {
                assert(b[i].1.take(a[i].1.len() as int) =~= a[i].1);
            }
            lemma_grows_transitive(held(v), a, b);
            assert(data.subrange(0, data.len() as int) =~= data);
            assert(b[v2.sealed.len() as int] == (lane, data));
        } else {
            let v2 = if v1.buf.len() + size > block_size {
                sealed_up(v1)
            } else {
                v1
            };
            lemma_sealing_grows(v1);
            let a = held(v2);
            let b = held(after);
            if v1.buf.len() + size > block_size {
                lemma_grows_transitive(held(v), held(v1), a);
            }
            assert forall|i: int| 0 <= i < a.len() implies {
                &&& (#[trigger] a[i]).1.len() <= b[i].1.len()
                &&& b[i].1.take(a[i].1.len() as int) == a[i].1
                &&& a[i].1.len() > 0 ==> b[i].0 == a[i].0
            } by {
                assert(b[i].1.take(a[i].1.len() as int) =~= a[i].1);
            }
            lemma_grows_transitive(held(v), a, b);
            let s = segments[0];
            assert(b[v2.sealed.len() as int].1 == v2.buf + data);
            assert((v2.buf + data).subrange(s.offset as int, s.offset + s.len) =~= data);
        }
    }
}

/// What holds of the first `n` files packed in `order`.
spec fn packed_well(
    p: PackedView,
    candidates: Seq<CandidateView>,
    hashes: Seq<Seq<u8>>,
    files: Seq<Seq<u8>>,
    order: Seq<usize>,
    opts: WriteOptions,
    n: nat,
) -> bool {
    &&& p.entries.len() == n
    &&& forall|j: int| 0 <= j < n ==> entry_packed_well(p, candidates, hashes, files, order, opts, j)
    &&& forall|h: Seq<u8>| #[trigger]
        p.seen.contains_key(h) ==> exists|j: int|
            0 <= j < n && hashes[#[trigger] order[j] as int] == h && p.entries[j].segments
                == p.seen[h]
}

/// The entry of the file packed as number `j` describes it, and its bytes lie
/// where its segments say. They lie in the lane of the file, or of one with the
/// same digest.
#[verifier::opaque]
spec fn entry_packed_well(
    p: PackedView,
    candidates: Seq<CandidateView>,
    hashes: Seq<Seq<u8>>,
    files: Seq<Seq<u8>>,
    order: Seq<usize>,
    opts: WriteOptions,
    j: int,
) -> bool {
    let k = order[j] as int;
    &&& p.entries[j] == file_entry(candidates[k], hashes[k], p.entries[j].segments)
    &&& exists|i: int|
        {
            &&& 0 <= i <= j
            &&& hashes[#[trigger] order[i] as int] == hashes[k]
            &&& !opts.dedup ==> i == j
            &&& lies_in(
                held(p.packing),
                p.entries[j].segments,
                files[k],
                chosen_lane(opts, candidates[order[i] as int].path),
            )
        }
}

/// No two different files have the same digest.
pub open spec fn tell_apart(hashes: Seq<Seq<u8>>, files: Seq<Seq<u8>>) -> bool {
    forall|i: int, j: int|
        #![trigger hashes[i], hashes[j]]
        0 <= i < files.len() && 0 <= j < files.len() && hashes[i] == hashes[j] ==> files[i]
            == files[j]
}

/// No file that was found empty has bytes when it is read.
pub open spec fn empty_files_are_empty(candidates: Seq<CandidateView>, files: Seq<Seq<u8>>) -> bool {
    forall|i: int|
        0 <= i < candidates.len() && (#[trigger] candidates[i]).size == 0 ==> files[i].len() == 0
}

/// `order` lists positions of files.
pub open spec fn lists_files(order: Seq<usize>, n: nat) -> bool {
    forall|i: int| 0 <= i < order.len() ==> 0 <= #[trigger] order[i] < n
}

proof fn lemma_packed_well(
    candidates: Seq<CandidateView>,
    hashes: Seq<Seq<u8>>,
    files: Seq<Seq<u8>>,
    order: Seq<usize>,
    opts: WriteOptions,
    n: nat,
)
    requires
        n <= order.len(),
        lists_files(order, candidates.len()),
        files.len() == candidates.len(),
        empty_files_are_empty(candidates, files),
        opts.dedup ==> tell_apart(hashes, files),
        packed_upto(candidates, hashes, files, order, opts, n) is Ok,
    ensures
        packed_well(
            packed_upto(candidates, hashes, files, order, opts, n)->Ok_0,
            candidates,
            hashes,
            files,
            order,
            opts,
            n,
        ),
    decreases n,
{
    if n > 0 {
        let m = (n - 1) as nat;
        lemma_packed_well(candidates, hashes, files, order, opts, m);
        let p = packed_upto(candidates, hashes, files, order, opts, m)->Ok_0;
        let q = packed_upto(candidates, hashes, files, order, opts, n)->Ok_0;
        assert(order[m as int] < candidates.len());
        let k = order[m as int] as int;
        let c = candidates[k];
        let data = files[k];
        let hash = hashes[k];
        let lane = chosen_lane(opts, c.path);
        assert(c.size == 0 ==> data.len() == 0);
        let fresh = !(opts.dedup && p.seen.contains_key(hash));
        if fresh {
            lemma_pack_file(p.packing, lane, c.size, data, opts.block_size as int);
        } else {
            assert(grows(held(p.packing), held(q.packing))) by {
                let h = held(p.packing);
                assert forall|i: int| 0 <= i < h.len() implies h[i].1.take(
                    (#[trigger] h[i]).1.len() as int,
                ) == h[i].1 by {
                    assert(h[i].1.take(h[i].1.len() as int) =~= h[i].1);
                }
            }
        }
        assert forall|j: int| 0 <= j < n implies entry_packed_well(
            q,
            candidates,
            hashes,
            files,
            order,
            opts,
            j,
        ) by {
            reveal(entry_packed_well);
            if j < m {
                assert(entry_packed_well(p, candidates, hashes, files, order, opts, j));
                let kj = order[j] as int;
                let i = choose|i: int|
                    {
                        &&& 0 <= i <= j
                        &&& hashes[#[trigger] order[i] as int] == hashes[kj]
                        &&& !opts.dedup ==> i == j
                        &&& lies_in(
                            held(p.packing),
                            p.entries[j].segments,
                            files[kj],
                            chosen_lane(opts, candidates[order[i] as int].path),
                        )
                    };
                assert(q.entries[j] == p.entries[j]);
                lemma_lies_in_grown(
                    held(p.packing),
                    held(q.packing),
                    p.entries[j].segments,
                    files[kj],
                    chosen_lane(opts, candidates[order[i] as int].path),
                );
                assert(hashes[order[i] as int] == hashes[kj]);
            } else if fresh {
                assert(hashes[order[m as int] as int] == hash);
            } else {
                let i0 = choose|i0: int|
                    0 <= i0 < m && hashes[#[trigger] order[i0] as int] == hash
                        && p.entries[i0].segments == p.seen[hash];
                assert(entry_packed_well(p, candidates, hashes, files, order, opts, i0));
                let k0 = order[i0] as int;
                assert(order[i0] < candidates.len());
                assert(hashes[k0] == hashes[k]);
                assert(files[k0] == data);
                let i = choose|i: int|
                    {
                        &&& 0 <= i <= i0
                        &&& hashes[#[trigger] order[i] as int] == hashes[k0]
                        &&& !opts.dedup ==> i == i0
                        &&& lies_in(
                            held(p.packing),
                            p.entries[i0].segments,
                            files[k0],
                            chosen_lane(opts, candidates[order[i] as int].path),
                        )
                    };
                assert(q.packing == p.packing);
                assert(q.entries[j].segments == p.seen[hash]);
                assert(hashes[order[i] as int] == hash);
            }
        }
        assert forall|h: Seq<u8>| #[trigger] q.seen.contains_key(h) implies exists|j: int|
            0 <= j < n && hashes[#[trigger] order[j] as int] == h && q.entries[j].segments
                == q.seen[h] by {
            if fresh && opts.dedup && h == hash {
                assert(hashes[order[m as int] as int] == h);
                assert(q.entries[m as int].segments == q.seen[h]);
            } else {
                assert(p.seen.contains_key(h));
                let j = choose|j: int|
                    0 <= j < m && hashes[#[trigger] order[j] as int] == h
                        && p.entries[j].segments == p.seen[h];
                assert(q.entries[j] == p.entries[j]);
                assert(hashes[order[j] as int] == h);
            }
        }
    }
}

/// The blocks of an archive end within it.
pub proof fn lemma_blocks_end(
    out: Seq<u8>,
    blocks: Seq<BlockInfo>,
    sealed: Seq<(Lane, Seq<u8>)>,
    opts: WriteOptions,
    n: nat,
)
    requires
        are_stored(out, blocks, sealed, opts),
        n <= blocks.len(),
    ensures
        HEADER_LEN <= end_of(blocks, n as int) <= out.len(),
    decreases n,
{
    if n > 0 {
        lemma_blocks_end(out, blocks, sealed, opts, (n - 1) as nat);
        assert(blocks[n - 1].offset == end_of(blocks, n - 1));
        assert(is_stored_block(out, blocks[n - 1], sealed[n - 1].0, sealed[n - 1].1, opts));
    }
}

/// Bytes that lie in the sealed blocks are read back from the archive, and their
/// block is encoded as the lane says.
proof fn lemma_stored_contents(
    out: Seq<u8>,
    blocks: Seq<BlockInfo>,
    v: PackView,
    opts: WriteOptions,
    segments: Seq<Segment>,
    data: Seq<u8>,
    lane: Lane,
)
    requires
        are_stored(out, blocks, sealed_up(v).sealed, opts),
        lies_in(held(sealed_up(v)), segments, data, lane),
    ensures
        contents(out, blocks, segments) == Ok::<Seq<u8>, Fault>(data),
        data.len() > 0 ==> segments[0].block < blocks.len()
            && blocks[segments[0].block as int].codec == codec_id(opts.lane_choice(lane).0)
            && sealed_up(v).sealed[segments[0].block as int].0 == lane,
        is_one_run(blocks, segments, data.len()),
{
    if data.len() == 0 {
        assert(data =~= Seq::<u8>::empty());
    } else {
        let w = sealed_up(v);
        let s = segments[0];
        assert(w.buf.len() == 0);
        assert(s.block < w.sealed.len());
        let b = blocks[s.block as int];
        assert(is_stored_block(
            out,
            b,
            w.sealed[s.block as int].0,
            w.sealed[s.block as int].1,
            opts,
        ));
        assert(held(w)[s.block as int] == w.sealed[s.block as int]);
        assert(segments.drop_last() =~= Seq::<Segment>::empty());
        assert(contents(out, blocks, segments.drop_last()) == Ok::<Seq<u8>, Fault>(Seq::empty()));
        assert(segments.last() == s);
        assert(segment_contents(out, blocks, s) == Ok::<Seq<u8>, Fault>(data));
        assert(Seq::<u8>::empty() + data =~= data);
    }
}

/// The segments of a file of `n` bytes: none if it is empty, else one, of its
/// length, within its block.
pub open spec fn is_one_run(blocks: Seq<BlockInfo>, segments: Seq<Segment>, n: nat) -> bool {
    if n == 0 {
        segments.len() == 0
    } else {
        let s = segments[0];
        &&& segments.len() == 1
        &&& s.len == n
        &&& s.block < blocks.len()
        &&& s.offset + s.len <= blocks[s.block as int].rlen
    }
}

/// `e` is the entry of a file: its metadata as found, its size, and its digest.
pub open spec fn is_entry_of(e: EntryView, c: CandidateView, hash: Seq<u8>) -> bool {
    e == file_entry(c, hash, e.segments)
}

/// The entry of the file packed as number `j`, its bytes, and the lane that its
/// block was encoded for.
pub proof fn lemma_file_packed(
    data: Seq<u8>,
    ix: IndexView,
    scan: ScanView,
    hashes: Seq<Seq<u8>>,
    files: Seq<Seq<u8>>,
    order: Seq<usize>,
    p: PackedView,
    opts: WriteOptions,
    j: int,
) -> (i: int)
    requires
        is_pack_order(scan.candidates, order),
        packed_upto(scan.candidates, hashes, files, order, opts, scan.candidates.len()) == Ok::<
            PackedView,
            Fault,
        >(p),
        are_stored(data, ix.blocks, sealed_up(p.packing).sealed, opts),
        files.len() == scan.candidates.len(),
        empty_files_are_empty(scan.candidates, files),
        opts.dedup ==> tell_apart(hashes, files),
        0 <= j < order.len(),
    ensures
        p.entries.len() == scan.candidates.len(),
        0 <= i < scan.candidates.len(),
        hashes[i] == hashes[order[j] as int],
        !opts.dedup ==> i == order[j],
        is_entry_of(p.entries[j], scan.candidates[order[j] as int], hashes[order[j] as int]),
        contents(data, ix.blocks, p.entries[j].segments) == Ok::<Seq<u8>, Fault>(
            files[order[j] as int],
        ),
        p.entries[j].segments.len() <= 1,
        is_one_run(ix.blocks, p.entries[j].segments, files[order[j] as int].len()),
        files[order[j] as int].len() > 0 ==> ({
            let b = p.entries[j].segments[0].block;
            let lane = chosen_lane(opts, scan.candidates[i].path);
            &&& b < ix.blocks.len()
            &&& ix.blocks[b as int].codec == codec_id(opts.lane_choice(lane).0)
            &&& sealed_up(p.packing).sealed[b as int].0 == lane
        }),
{
    let cs = scan.candidates;
    lemma_packed_well(cs, hashes, files, order, opts, cs.len());
    assert(entry_packed_well(p, cs, hashes, files, order, opts, j));
    reveal(entry_packed_well);
    let k = order[j] as int;
    let i0 = choose|i0: int|
        {
            &&& 0 <= i0 <= j
            &&& hashes[#[trigger] order[i0] as int] == hashes[k]
            &&& !opts.dedup ==> i0 == j
            &&& lies_in(
                held(p.packing),
                p.entries[j].segments,
                files[k],
                chosen_lane(opts, cs[order[i0] as int].path),
            )
        };
    let lane = chosen_lane(opts, cs[order[i0] as int].path);
    lemma_sealing_grows(p.packing);
    lemma_lies_in_grown(
        held(p.packing),
        held(sealed_up(p.packing)),
        p.entries[j].segments,
        files[k],
        lane,
    );
    lemma_stored_contents(
        data,
        ix.blocks,
        p.packing,
        opts,
        p.entries[j].segments,
        files[k],
        lane,
    );
    assert(0 <= order[i0] < cs.len());
    order[i0] as int
}

/// A listing leaves nothing out and adds nothing.
pub proof fn law_listing_is_complete(entries: Seq<EntryView>, listed: Seq<EntryView>)
    requires
        is_listing(entries, listed),
        entries.len() <= usize::MAX,
    ensures
        listed.len() == entries.len(),
        forall|k: int|
            0 <= k < entries.len() ==> listed.contains(#[trigger] entries[k]),
        forall|k: int|
            0 <= k < listed.len() ==> entries.contains(#[trigger] listed[k]),
{
    let order = choose|order: Seq<usize>| #[trigger]
        is_index_order(entries, order) && listed == in_order(entries, order);
    assert forall|k: int| 0 <= k < entries.len() implies listed.contains(#[trigger] entries[k]) by {
        assert(order.contains(k as usize));
        let q = choose|q: int| 0 <= q < order.len() && order[q] == k as usize;
        assert(listed[q] == entries[k]);
    }
    assert forall|k: int| 0 <= k < listed.len() implies entries.contains(#[trigger] listed[k]) by {
        assert(0 <= order[k] < entries.len());
        assert(entries[order[k] as int] == listed[k]);
    }
}

/// What a created archive was made from: its index, what packing came to, and
/// the order in which files were packed.
pub proof fn lemma_created(
    data: Seq<u8>,
    stats: WriteStats,
    scan: ScanView,
    hashes: Seq<Seq<u8>>,
    files: Seq<Seq<u8>>,
    opts: WriteOptions,
) -> (r: (IndexView, PackedView, Seq<usize>))
    requires
        is_created(data, stats, scan, hashes, files, opts),
    ensures
        ({
            let (ix, p, order) = r;
            let cs = scan.candidates;
            &&& opened(data) matches Ok((f, got)) && got == ix && f.clen > 0 && f.offset + f.clen
                + FOOTER_LEN == data.len()
            &&& is_archive_of(data, ix, scan, p, opts)
            &&& are_stats_of(stats, data, ix, scan, p)
            &&& is_pack_order(cs, order)
            &&& packed_upto(cs, hashes, files, order, opts, cs.len()) == Ok::<PackedView, Fault>(p)
            &&& p.entries.len() == cs.len()
            &&& forall|j: int|
                0 <= j < cs.len() ==> is_entry_of(
                    #[trigger] p.entries[j],
                    cs[order[j] as int],
                    hashes[order[j] as int],
                )
        }),
{
    let (ix, p) = choose|ix: IndexView, p: PackedView|
        {
            &&& packs_to(scan, hashes, files, opts, Ok(p))
            &&& #[trigger] is_archive_of(data, ix, scan, p, opts)
            &&& are_stats_of(stats, data, ix, scan, p)
        };
    let cs = scan.candidates;
    let order = choose|order: Seq<usize>|
        {
            &&& #[trigger] is_pack_order(cs, order)
            &&& packed_upto(cs, hashes, files, order, opts, cs.len()) == Ok::<PackedView, Fault>(p)
        };
    lemma_blocks_end(data, ix.blocks, sealed_up(p.packing).sealed, opts, ix.blocks.len());
    law_finished_archive_opens(data, end_of(ix.blocks, ix.blocks.len() as int), ix);
    lemma_entry_count(cs, hashes, files, order, opts, cs.len());
    (ix, p, order)
}

/// A created archive that is cut off, anywhere before the end of its index, is refused by
/// whoever knows its footer.
pub proof fn law_cut_off_archive_is_refused(
    data: Seq<u8>,
    stats: WriteStats,
    scan: ScanView,
    hashes: Seq<Seq<u8>>,
    files: Seq<Seq<u8>>,
    opts: WriteOptions,
    n: int,
)
    requires
        is_created(data, stats, scan, hashes, files, opts),
        0 <= n < data.len() - FOOTER_LEN,
    ensures
        opened(data) matches Ok((f, _)) && index_in(data.take(n), f) == Err::<IndexView, Fault>(
            Fault::IndexCut,
        ),
{
    let _ = lemma_created(data, stats, scan, hashes, files, opts);
    crate::index::law_cut_off_index_is_refused(data, opened(data)->Ok_0.0, n);
}

/// An archive that was created opens, and gives back every file: its metadata,
/// and byte for byte what it was read as when it was packed. If that is not what
/// it was hashed as, it fails its checksum. This leaves out two different files
/// with the same digest, where deduplication is on, and files that were found
/// empty and then were not.
pub proof fn law_files_are_given_back(
    data: Seq<u8>,
    stats: WriteStats,
    scan: ScanView,
    hashes: Seq<Seq<u8>>,
    files: Seq<Seq<u8>>,
    opts: WriteOptions,
    i: int,
)
    requires
        is_created(data, stats, scan, hashes, files, opts),
        files.len() == scan.candidates.len(),
        scan.entries.len() + scan.candidates.len() <= usize::MAX,
        empty_files_are_empty(scan.candidates, files),
        opts.dedup ==> tell_apart(hashes, files),
        0 <= i < files.len(),
    ensures
        opened(data) matches Ok((_, ix)) && exists|k: int|
            {
                &&& 0 <= k < ix.entries.len()
                &&& is_entry_of(#[trigger] ix.entries[k], scan.candidates[i], hashes[i])
                &&& ix.entries[k].segments.len() <= 1
                &&& contents(data, ix.blocks, ix.entries[k].segments) == Ok::<Seq<u8>, Fault>(
                    files[i],
                )
                &&& checked_contents(data, ix.blocks, ix.entries[k]) == if hashes[i] == blake3_of(
                    files[i],
                ) {
                    Ok::<Seq<u8>, Fault>(files[i])
                } else {
                    Err::<Seq<u8>, Fault>(Fault::Checksum)
                }
            },
{
    let (ix, p, order) = lemma_created(data, stats, scan, hashes, files, opts);
    assert(order.contains(i as usize));
    let j = choose|j: int| 0 <= j < order.len() && order[j] == i as usize;
    let _ = lemma_file_packed(data, ix, scan, hashes, files, order, p, opts, j);
    let k = lemma_listed(scan, p, ix, j);
    assert(is_entry_of(ix.entries[k], scan.candidates[i], hashes[i]));
}

/// An archive that was created opens, and gives back every directory and every
/// symlink that was found.
pub proof fn law_dirs_and_links_are_given_back(
    data: Seq<u8>,
    stats: WriteStats,
    scan: ScanView,
    hashes: Seq<Seq<u8>>,
    files: Seq<Seq<u8>>,
    opts: WriteOptions,
    i: int,
)
    requires
        is_created(data, stats, scan, hashes, files, opts),
        scan.entries.len() + scan.candidates.len() <= usize::MAX,
        0 <= i < scan.entries.len(),
    ensures
        opened(data) matches Ok((_, ix)) && ix.entries.contains(scan.entries[i]),
{
    let (ix, p, order) = lemma_created(data, stats, scan, hashes, files, opts);
    let all = scan.entries + p.entries;
    law_listing_is_complete(all, ix.entries);
    assert(all[i] == scan.entries[i]);
}

/// Every packed file has an entry, of the kind file, with its digest.
proof fn lemma_entry_count(
    cs: Seq<CandidateView>,
    hashes: Seq<Seq<u8>>,
    files: Seq<Seq<u8>>,
    order: Seq<usize>,
    opts: WriteOptions,
    n: nat,
)
    requires
        packed_upto(cs, hashes, files, order, opts, n) is Ok,
    ensures
        ({
            let p = packed_upto(cs, hashes, files, order, opts, n)->Ok_0;
            &&& p.entries.len() == n
            &&& forall|j: int|
                0 <= j < n ==> is_entry_of(
                    #[trigger] p.entries[j],
                    cs[order[j] as int],
                    hashes[order[j] as int],
                )
        }),
    decreases n,
{
    if n > 0 {
        lemma_entry_count(cs, hashes, files, order, opts, (n - 1) as nat);
        let p = packed_upto(cs, hashes, files, order, opts, (n - 1) as nat)->Ok_0;
        let q = packed_upto(cs, hashes, files, order, opts, n)->Ok_0;
        assert forall|j: int| 0 <= j < n implies is_entry_of(
            #[trigger] q.entries[j],
            cs[order[j] as int],
            hashes[order[j] as int],
        ) by {
            if j < n - 1 {
                assert(q.entries[j] == p.entries[j]);
            }
        }
    }
}

/// What the walk finds: entries of directories and symlinks, and files, all
/// under paths that pass the check.
pub open spec fn is_sound(s: ScanView) -> bool {
    &&& forall|i: int|
        0 <= i < s.entries.len() ==> (#[trigger] s.entries[i]).kind != Kind::File && path_fault(
            s.entries[i].path,
        ) is None
    &&& forall|i: int|
        0 <= i < s.candidates.len() ==> path_fault((#[trigger] s.candidates[i]).path) is None
}

proof fn lemma_walked_sound(s: ScanView, items: Seq<Item>)
    requires
        is_sound(s),
        walked(s, items) is Ok,
    ensures
        is_sound(walked(s, items)->Ok_0),
    decreases items.len(),
{
    if items.len() > 0 {
        lemma_walked_sound(s, items.drop_last());
        let t = walked(s, items.drop_last())->Ok_0;
        let u = walked(s, items)->Ok_0;
        assert forall|i: int| 0 <= i < u.entries.len() implies (#[trigger] u.entries[i]).kind
            != Kind::File && path_fault(u.entries[i].path) is None by {
            if i < t.entries.len() {
                assert(u.entries[i] == t.entries[i]);
            }
        }
        assert forall|i: int| 0 <= i < u.candidates.len() implies path_fault(
            (#[trigger] u.candidates[i]).path,
        ) is None by {
            if i < t.candidates.len() {
                assert(u.candidates[i] == t.candidates[i]);
            }
        }
    }
}

/// Whatever is walked, what is found is sound.
pub proof fn law_walks_are_sound(inputs: Seq<Vec<Item>>)
    requires
        walked_all(inputs) is Ok,
    ensures
        is_sound(walked_all(inputs)->Ok_0),
    decreases inputs.len(),
{
    if inputs.len() > 0 {
        law_walks_are_sound(inputs.drop_last());
        lemma_walked_sound(walked_all(inputs.drop_last())->Ok_0, inputs.last()@);
    }
}

/// The paths of a created archive pass the check that extraction makes: none of
/// its entries is refused.
pub proof fn law_created_paths_are_accepted(
    data: Seq<u8>,
    stats: WriteStats,
    inputs: Seq<Vec<Item>>,
    scan: ScanView,
    hashes: Seq<Seq<u8>>,
    files: Seq<Seq<u8>>,
    opts: WriteOptions,
)
    requires
        walked_all(inputs) == Ok::<ScanView, Fault>(scan),
        is_created(data, stats, scan, hashes, files, opts),
        scan.entries.len() + scan.candidates.len() <= usize::MAX,
    ensures
        opened(data) matches Ok((_, ix)) && forall|k: int|
            0 <= k < ix.entries.len() ==> path_fault((#[trigger] ix.entries[k]).path) is None,
{
    law_walks_are_sound(inputs);
    let (ix, p, order) = lemma_created(data, stats, scan, hashes, files, opts);
    let cs = scan.candidates;
    let all = scan.entries + p.entries;
    law_listing_is_complete(all, ix.entries);
    assert forall|k: int| 0 <= k < ix.entries.len() implies path_fault(
        (#[trigger] ix.entries[k]).path,
    ) is None by {
        assert(all.contains(ix.entries[k]));
        let m = choose|m: int| 0 <= m < all.len() && all[m] == ix.entries[k];
        if m < scan.entries.len() {
            assert(all[m] == scan.entries[m]);
        } else {
            let j = m - scan.entries.len();
            assert(all[m] == p.entries[j]);
            assert(0 <= order[j] < cs.len());
            assert(path_fault(cs[order[j] as int].path) is None);
        }
    }
}

/// Checking a created archive finds no fault.
pub proof fn law_created_archive_verifies(
    data: Seq<u8>,
    stats: WriteStats,
    inputs: Seq<Vec<Item>>,
    scan: ScanView,
    hashes: Seq<Seq<u8>>,
    files: Seq<Seq<u8>>,
    opts: WriteOptions,
    outcome: Option<Fault>,
)
    requires
        walked_all(inputs) == Ok::<ScanView, Fault>(scan),
        is_created(data, stats, scan, hashes, files, opts),
        hashes == digests_of(files),
        files.len() == scan.candidates.len(),
        scan.entries.len() + scan.candidates.len() <= usize::MAX,
        empty_files_are_empty(scan.candidates, files),
        opts.dedup ==> tell_apart(hashes, files),
        opened(data) matches Ok((_, ix)) && verifies_to(data, ix, outcome),
    ensures
        outcome is None,
{
    law_walks_are_sound(inputs);
    let (ix, p, order) = lemma_created(data, stats, scan, hashes, files, opts);
    let cs = scan.candidates;
    let all = scan.entries + p.entries;
    law_listing_is_complete(all, ix.entries);
    let at = chosen(ix.entries, None, Kind::File, ix.entries.len());
    lemma_chosen(ix.entries, None, Kind::File, ix.entries.len());
    let listed = choose|listed: Seq<usize>| #[trigger]
        is_block_order(ix.entries, at, listed) && outcome == (match first_fault(
            data,
            ix,
            listed,
            listed.len(),
        ) {
            Some(f) => Some(f),
            None => first_bad_block(data, ix.blocks, ix.blocks.len()),
        });
    law_block_order(ix.entries, at, listed);
    lemma_stored_decode(data, ix.blocks, sealed_up(p.packing).sealed, opts, ix.blocks.len());
    assert forall|i: int| 0 <= i < listed.len() implies checked_contents(
        data,
        ix.blocks,
        ix.entries[#[trigger] listed[i] as int],
    ) is Ok by {
        assert(listed.contains(listed[i]));
        assert(at.contains(listed[i]));
        let e = ix.entries[listed[i] as int];
        let q = choose|q: int| 0 <= q < at.len() && at[q] == listed[i];
        assert(e.kind == Kind::File);
        assert(all.contains(e));
        let m = choose|m: int| 0 <= m < all.len() && all[m] == e;
        if m < scan.entries.len() {
            assert(all[m] == scan.entries[m]);
        } else {
            let j = m - scan.entries.len();
            assert(all[m] == p.entries[j]);
            let _ = lemma_file_packed(data, ix, scan, hashes, files, order, p, opts, j);
        }
    }
    lemma_no_fault(data, ix, listed, listed.len());
}

proof fn lemma_stored_decode(
    data: Seq<u8>,
    blocks: Seq<BlockInfo>,
    sealed: Seq<(Lane, Seq<u8>)>,
    opts: WriteOptions,
    n: nat,
)
    requires
        are_stored(data, blocks, sealed, opts),
        n <= blocks.len(),
    ensures
        first_bad_block(data, blocks, n) is None,
    decreases n,
{
    if n > 0 {
        lemma_stored_decode(data, blocks, sealed, opts, (n - 1) as nat);
        assert(blocks[n - 1].offset == end_of(blocks, n - 1));
    }
}

proof fn lemma_no_fault(data: Seq<u8>, ix: IndexView, listed: Seq<usize>, n: nat)
    requires
        n <= listed.len(),
        forall|i: int|
            0 <= i < listed.len() ==> checked_contents(
                data,
                ix.blocks,
                ix.entries[#[trigger] listed[i] as int],
            ) is Ok,
    ensures
        first_fault(data, ix, listed, n) is None,
    decreases n,
{
    if n > 0 {
        lemma_no_fault(data, ix, listed, (n - 1) as nat);
        assert(0 <= listed[n - 1]);
    }
}

/// With deduplication, what is known of the first `n` files: every digest with
/// the segments that all files of that digest have, and how many files were
/// spared.
pub proof fn lemma_dedup(
    cs: Seq<CandidateView>,
    hashes: Seq<Seq<u8>>,
    files: Seq<Seq<u8>>,
    order: Seq<usize>,
    opts: WriteOptions,
    n: nat,
)
    requires
        opts.dedup,
        packed_upto(cs, hashes, files, order, opts, n) is Ok,
    ensures
        ({
            let p = packed_upto(cs, hashes, files, order, opts, n)->Ok_0;
            &&& p.entries.len() == n
            &&& p.seen.dom().finite()
            &&& p.deduped_files + p.seen.dom().len() == n
            &&& forall|j: int|
                0 <= j < n ==> {
                    let hash = hashes[#[trigger] order[j] as int];
                    &&& p.seen.contains_key(hash)
                    &&& p.entries[j].hash == Some(hash)
                    &&& p.entries[j].segments == p.seen[hash]
                }
            &&& forall|h: Seq<u8>| #[trigger]
                p.seen.contains_key(h) ==> exists|j: int|
                    0 <= j < n && hashes[#[trigger] order[j] as int] == h
        }),
    decreases n,
{
    if n > 0 {
        lemma_dedup(cs, hashes, files, order, opts, (n - 1) as nat);
        let m = n - 1;
        let p = packed_upto(cs, hashes, files, order, opts, m as nat)->Ok_0;
        let q = packed_upto(cs, hashes, files, order, opts, n)->Ok_0;
        let hash = hashes[order[m] as int];
        if !p.seen.contains_key(hash) {
            assert(q.seen.dom() =~= p.seen.dom().insert(hash));
        }
        assert forall|j: int| 0 <= j < n implies {
            let h = hashes[#[trigger] order[j] as int];
            &&& q.seen.contains_key(h)
            &&& q.entries[j].hash == Some(h)
            &&& q.entries[j].segments == q.seen[h]
        } by {
            if j < m {
                assert(q.entries[j] == p.entries[j]);
                assert(p.seen.contains_key(hashes[order[j] as int]));
            }
        }
        assert forall|h: Seq<u8>| #[trigger] q.seen.contains_key(h) implies exists|j: int|
            0 <= j < n && hashes[#[trigger] order[j] as int] == h by {
            if p.seen.contains_key(h) {
                let j = choose|j: int|
                    0 <= j < m && hashes[#[trigger] order[j] as int] == h;
                assert(hashes[order[j] as int] == h);
            } else {
                assert(hashes[order[m] as int] == h);
            }
        }
    }
}

/// With deduplication every digest is stored once: files with the same digest
/// have the same segments.
pub proof fn law_identical_files_share_segments(
    data: Seq<u8>,
    stats: WriteStats,
    inputs: Seq<Vec<Item>>,
    scan: ScanView,
    hashes: Seq<Seq<u8>>,
    files: Seq<Seq<u8>>,
    opts: WriteOptions,
)
    requires
        opts.dedup,
        walked_all(inputs) == Ok::<ScanView, Fault>(scan),
        is_created(data, stats, scan, hashes, files, opts),
        scan.entries.len() + scan.candidates.len() <= usize::MAX,
    ensures
        opened(data) matches Ok((_, ix)) && forall|a: int, b: int|
            #![trigger ix.entries[a], ix.entries[b]]
            0 <= a < ix.entries.len() && 0 <= b < ix.entries.len() && ix.entries[a].kind
                == Kind::File && ix.entries[b].kind == Kind::File && ix.entries[a].hash
                == ix.entries[b].hash ==> ix.entries[a].segments == ix.entries[b].segments,
{
    law_walks_are_sound(inputs);
    let (ix, p, order) = lemma_created(data, stats, scan, hashes, files, opts);
    let cs = scan.candidates;
    lemma_dedup(cs, hashes, files, order, opts, cs.len());
    let all = scan.entries + p.entries;
    law_listing_is_complete(all, ix.entries);
    assert forall|a: int|
        0 <= a < ix.entries.len() && ix.entries[a].kind == Kind::File implies {
        let e = #[trigger] ix.entries[a];
        e.hash is Some && p.seen.contains_key(e.hash->0) && e.segments == p.seen[e.hash->0]
    } by {
        let e = ix.entries[a];
        assert(all.contains(e));
        let m = choose|m: int| 0 <= m < all.len() && all[m] == e;
        if m < scan.entries.len() {
            assert(all[m] == scan.entries[m]);
        } else {
            let j = m - scan.entries.len();
            assert(all[m] == p.entries[j]);
            assert(0 <= order[j]);
        }
    }
}

/// With deduplication, the files that were not stored are all files but one for
/// every digest; without, none.
pub proof fn law_deduped_files(
    data: Seq<u8>,
    stats: WriteStats,
    scan: ScanView,
    hashes: Seq<Seq<u8>>,
    files: Seq<Seq<u8>>,
    opts: WriteOptions,
)
    requires
        is_created(data, stats, scan, hashes, files, opts),
        hashes.len() == scan.candidates.len(),
        scan.candidates.len() <= usize::MAX,
    ensures
        opts.dedup ==> stats.deduped_files + hashes.to_set().len() == hashes.len(),
        !opts.dedup ==> stats.deduped_files == 0 && stats.deduped_bytes == 0,
{
    let (ix, p, order) = lemma_created(data, stats, scan, hashes, files, opts);
    let cs = scan.candidates;
    if opts.dedup {
        lemma_dedup(cs, hashes, files, order, opts, cs.len());
        assert(p.seen.dom() =~= hashes.to_set()) by {
            assert forall|h: Seq<u8>| p.seen.dom().contains(h) implies hashes.to_set().contains(
                h,
            ) by {
                assert(p.seen.contains_key(h));
                let j = choose|j: int|
                    0 <= j < cs.len() && hashes[#[trigger] order[j] as int] == h;
                assert(0 <= order[j] < cs.len());
                assert(hashes.contains(h));
            }
            assert forall|h: Seq<u8>| hashes.to_set().contains(h) implies p.seen.dom().contains(
                h,
            ) by {
                let i = choose|i: int| 0 <= i < hashes.len() && hashes[i] == h;
                assert(order.contains(i as usize));
                let j = choose|j: int| 0 <= j < order.len() && order[j] == i as usize;
                assert(p.seen.contains_key(hashes[order[j] as int]));
            }
        }
    } else {
        lemma_no_dedup(cs, hashes, files, order, opts, cs.len());
    }
}

proof fn lemma_no_dedup(
    cs: Seq<CandidateView>,
    hashes: Seq<Seq<u8>>,
    files: Seq<Seq<u8>>,
    order: Seq<usize>,
    opts: WriteOptions,
    n: nat,
)
    requires
        !opts.dedup,
        packed_upto(cs, hashes, files, order, opts, n) is Ok,
    ensures
        packed_upto(cs, hashes, files, order, opts, n)->Ok_0.deduped_files == 0,
        packed_upto(cs, hashes, files, order, opts, n)->Ok_0.deduped_bytes == 0,
    decreases n,
{
    if n > 0 {
        lemma_no_dedup(cs, hashes, files, order, opts, (n - 1) as nat);
    }
}

/// The uncompressed bytes of some blocks.
spec fn block_bytes(sealed: Seq<(Lane, Seq<u8>)>) -> nat
    decreases sealed.len(),
{
    if sealed.len() == 0 {
        0
    } else {
        block_bytes(sealed.drop_last()) + sealed.last().1.len()
    }
}

proof fn lemma_block_bytes_sealed(v: PackView)
    ensures
        block_bytes(sealed_up(v).sealed) + sealed_up(v).buf.len() == block_bytes(v.sealed)
            + v.buf.len(),
{
    if v.buf.len() > 0 {
        assert(v.sealed.push((v.lane, v.buf)).drop_last() =~= v.sealed);
    }
}

/// Packing a file adds its size to what the blocks hold.
proof fn lemma_pack_file_bytes(v: PackView, lane: Lane, size: u64, data: Seq<u8>, block_size: int)
    requires
        pack_file(v, lane, size, data, block_size) is Ok,
    ensures
        ({
            let after = pack_file(v, lane, size, data, block_size)->Ok_0.0;
            block_bytes(after.sealed) + after.buf.len() == block_bytes(v.sealed) + v.buf.len()
                + size
        }),
{
    if size > 0 {
        let v1 = opened_for(v, lane);
        lemma_block_bytes_sealed(v);
        lemma_block_bytes_sealed(v1);
        let v2 = sealed_up(v1);
        assert(v2.sealed.push((lane, data)).drop_last() =~= v2.sealed);
    }
}

proof fn lemma_packed_bytes(
    cs: Seq<CandidateView>,
    hashes: Seq<Seq<u8>>,
    files: Seq<Seq<u8>>,
    order: Seq<usize>,
    opts: WriteOptions,
    n: nat,
)
    requires
        n <= order.len(),
        packed_upto(cs, hashes, files, order, opts, n) is Ok,
    ensures
        ({
            let p = packed_upto(cs, hashes, files, order, opts, n)->Ok_0;
            block_bytes(p.packing.sealed) + p.packing.buf.len() + p.deduped_bytes == sum_at(
                size_at(cs),
                order.take(n as int),
            )
        }),
    decreases n,
{
    if n > 0 {
        let m = (n - 1) as nat;
        lemma_packed_bytes(cs, hashes, files, order, opts, m);
        let p = packed_upto(cs, hashes, files, order, opts, m)->Ok_0;
        assert(order.take(n as int).drop_last() =~= order.take(m as int));
        let c = cs[order[m as int] as int];
        let data = files[order[m as int] as int];
        if !(opts.dedup && p.seen.contains_key(hashes[order[m as int] as int])) {
            lemma_pack_file_bytes(
                p.packing,
                chosen_lane(opts, c.path),
                c.size,
                data,
                opts.block_size as int,
            );
        }
    }
}

proof fn lemma_raw_bytes(
    out: Seq<u8>,
    blocks: Seq<BlockInfo>,
    sealed: Seq<(Lane, Seq<u8>)>,
    opts: WriteOptions,
    n: nat,
)
    requires
        are_stored(out, blocks, sealed, opts),
        n <= blocks.len(),
    ensures
        raw_bytes(blocks.take(n as int)) == block_bytes(sealed.take(n as int)),
    decreases n,
{
    if n > 0 {
        lemma_raw_bytes(out, blocks, sealed, opts, (n - 1) as nat);
        assert(blocks.take(n as int).drop_last() =~= blocks.take(n - 1));
        assert(sealed.take(n as int).drop_last() =~= sealed.take(n - 1));
        assert(is_stored_block(out, blocks[n - 1], sealed[n - 1].0, sealed[n - 1].1, opts));
    }
}

/// What all blocks hold and what deduplication spared add up to the sizes.
proof fn lemma_all_bytes(
    cs: Seq<CandidateView>,
    hashes: Seq<Seq<u8>>,
    files: Seq<Seq<u8>>,
    order: Seq<usize>,
    opts: WriteOptions,
    p: PackedView,
)
    requires
        is_pack_order(cs, order),
        packed_upto(cs, hashes, files, order, opts, cs.len()) == Ok::<PackedView, Fault>(p),
        cs.len() <= usize::MAX,
    ensures
        block_bytes(sealed_up(p.packing).sealed) + p.deduped_bytes == total_bytes(cs),
{
    lemma_packed_bytes(cs, hashes, files, order, opts, cs.len());
    assert(order.take(cs.len() as int) =~= order);
    law_order_keeps_sums(
        cs.len(),
        |a: int, b: int| crate::classify::pack_le(cs[a].path, cs[b].path),
        order,
        size_at(cs),
    );
    lemma_total_bytes_sum(cs, cs.len());
    assert(cs.take(cs.len() as int) =~= cs);
    lemma_block_bytes_sealed(p.packing);
}

proof fn lemma_all_raw_bytes(
    out: Seq<u8>,
    blocks: Seq<BlockInfo>,
    sealed: Seq<(Lane, Seq<u8>)>,
    opts: WriteOptions,
)
    requires
        are_stored(out, blocks, sealed, opts),
    ensures
        raw_bytes(blocks) == block_bytes(sealed),
{
    lemma_raw_bytes(out, blocks, sealed, opts, blocks.len());
    assert(blocks.take(blocks.len() as int) =~= blocks);
    assert(sealed.take(blocks.len() as int) =~= sealed);
}

/// The blocks hold every input byte that deduplication did not spare: what they
/// decode to and what was spared add up to the input.
pub proof fn law_blocks_hold_what_dedup_left(
    data: Seq<u8>,
    stats: WriteStats,
    scan: ScanView,
    hashes: Seq<Seq<u8>>,
    files: Seq<Seq<u8>>,
    opts: WriteOptions,
)
    requires
        is_created(data, stats, scan, hashes, files, opts),
        scan.candidates.len() <= usize::MAX,
    ensures
        opened(data) matches Ok((_, ix)) && raw_bytes(ix.blocks) + stats.deduped_bytes
            == stats.input_bytes,
{
    let (ix, p, order) = lemma_created(data, stats, scan, hashes, files, opts);
    lemma_all_bytes(scan.candidates, hashes, files, order, opts, p);
    lemma_all_raw_bytes(data, ix.blocks, sealed_up(p.packing).sealed, opts);
}

/// Entry `k` is that of file `i`, and its one block is encoded as the lane of
/// file `j` says.
pub open spec fn is_in_lane_of(
    ix: IndexView,
    scan: ScanView,
    hashes: Seq<Seq<u8>>,
    opts: WriteOptions,
    i: int,
    k: int,
    j: int,
) -> bool {
    let e = ix.entries[k];
    let choice = opts.lane_choice(chosen_lane(opts, scan.candidates[j].path));
    &&& 0 <= k < ix.entries.len()
    &&& is_entry_of(e, scan.candidates[i], hashes[i])
    &&& e.segments.len() == 1
    &&& e.segments[0].block < ix.blocks.len()
    &&& ix.blocks[e.segments[0].block as int].codec == codec_id(choice.0)
}

/// Lanes are packed into separate blocks: the block of a file is encoded as the
/// file's lane says, or, where deduplication shares it, as the lane of a file
/// with the same digest says.
pub proof fn law_lanes_are_separate(
    data: Seq<u8>,
    stats: WriteStats,
    scan: ScanView,
    hashes: Seq<Seq<u8>>,
    files: Seq<Seq<u8>>,
    opts: WriteOptions,
    i: int,
)
    requires
        is_created(data, stats, scan, hashes, files, opts),
        files.len() == scan.candidates.len(),
        scan.entries.len() + scan.candidates.len() <= usize::MAX,
        empty_files_are_empty(scan.candidates, files),
        opts.dedup ==> tell_apart(hashes, files),
        0 <= i < files.len(),
        files[i].len() > 0,
    ensures
        opened(data) matches Ok((_, ix)) && exists|k: int, j: int|
            {
                &&& #[trigger] is_in_lane_of(ix, scan, hashes, opts, i, k, j)
                &&& 0 <= j < files.len()
                &&& hashes[j] == hashes[i]
                &&& !opts.dedup ==> j == i
            },
{
    let (ix, p, order) = lemma_created(data, stats, scan, hashes, files, opts);
    assert(order.contains(i as usize));
    let at = choose|at: int| 0 <= at < order.len() && order[at] == i as usize;
    let j = lemma_file_packed(data, ix, scan, hashes, files, order, p, opts, at);
    let segments = p.entries[at].segments;
    if segments.len() == 0 {
        assert(contents(data, ix.blocks, segments) == Ok::<Seq<u8>, Fault>(Seq::empty()));
    }
    let k = lemma_listed(scan, p, ix, at);
    assert(is_in_lane_of(ix, scan, hashes, opts, i, k, j));
}

/// Where the index lists the file packed as number `j`.
pub proof fn lemma_listed(scan: ScanView, p: PackedView, ix: IndexView, j: int) -> (k: int)
    requires
        is_listing(scan.entries + p.entries, ix.entries),
        scan.entries.len() + p.entries.len() <= usize::MAX,
        0 <= j < p.entries.len(),
    ensures
        0 <= k < ix.entries.len(),
        ix.entries[k] == p.entries[j],
{
    let all = scan.entries + p.entries;
    law_listing_is_complete(all, ix.entries);
    let m = scan.entries.len() + j;
    assert(all[m] == p.entries[j]);
    assert(ix.entries.contains(all[m]));
    choose|k: int| 0 <= k < ix.entries.len() && ix.entries[k] == all[m]
}

/// A block is within the block size, or it is one file that is at or above it.
spec fn block_in_bounds(raw: Seq<u8>, files: Seq<Seq<u8>>, block_size: int) -> bool {
    ||| raw.len() <= block_size
    ||| exists|i: int| 0 <= i < files.len() && #[trigger] files[i] == raw
}

proof fn lemma_packed_bounds(
    cs: Seq<CandidateView>,
    hashes: Seq<Seq<u8>>,
    files: Seq<Seq<u8>>,
    order: Seq<usize>,
    opts: WriteOptions,
    n: nat,
)
    requires
        n <= order.len(),
        lists_files(order, files.len()),
        packed_upto(cs, hashes, files, order, opts, n) is Ok,
    ensures
        ({
            let v = packed_upto(cs, hashes, files, order, opts, n)->Ok_0.packing;
            &&& v.buf.len() <= opts.block_size
            &&& forall|b: int|
                0 <= b < v.sealed.len() ==> block_in_bounds(
                    (#[trigger] v.sealed[b]).1,
                    files,
                    opts.block_size as int,
                )
        }),
    decreases n,
{
    if n > 0 {
        let m = (n - 1) as nat;
        lemma_packed_bounds(cs, hashes, files, order, opts, m);
        let p = packed_upto(cs, hashes, files, order, opts, m)->Ok_0;
        let q = packed_upto(cs, hashes, files, order, opts, n)->Ok_0;
        assert(0 <= order[m as int] < files.len());
        let c = cs[order[m as int] as int];
        let data = files[order[m as int] as int];
        let bs = opts.block_size as int;
        if !(opts.dedup && p.seen.contains_key(hashes[order[m as int] as int])) {
            let lane = chosen_lane(opts, c.path);
            let v = p.packing;
            let v1 = opened_for(v, lane);
            assert forall|b: int| 0 <= b < q.packing.sealed.len() implies block_in_bounds(
                (#[trigger] q.packing.sealed[b]).1,
                files,
                bs,
            ) by {
                if b < v.sealed.len() {
                    assert(q.packing.sealed[b] == v.sealed[b]);
                } else if q.packing.sealed[b].1 == data {
                    assert(files[order[m as int] as int] == data);
                }
            }
        }
    }
}

/// Blocks stay near the block size: each decodes to no more than that, or to
/// exactly one file.
pub proof fn law_blocks_are_bounded(
    data: Seq<u8>,
    stats: WriteStats,
    scan: ScanView,
    hashes: Seq<Seq<u8>>,
    files: Seq<Seq<u8>>,
    opts: WriteOptions,
)
    requires
        is_created(data, stats, scan, hashes, files, opts),
        files.len() == scan.candidates.len(),
    ensures
        opened(data) matches Ok((_, ix)) && forall|b: int|
            0 <= b < ix.blocks.len() ==> {
                ||| (#[trigger] ix.blocks[b]).rlen <= opts.block_size
                ||| exists|i: int|
                    0 <= i < files.len() && block_contents(data, ix.blocks[b]) == Ok::<
                        Seq<u8>,
                        Fault,
                    >(#[trigger] files[i])
            },
{
    let (ix, p, order) = lemma_created(data, stats, scan, hashes, files, opts);
    let cs = scan.candidates;
    let sealed = sealed_up(p.packing).sealed;
    lemma_packed_bounds(cs, hashes, files, order, opts, cs.len());
    assert forall|b: int| 0 <= b < ix.blocks.len() implies {
        ||| (#[trigger] ix.blocks[b]).rlen <= opts.block_size
        ||| exists|i: int|
            0 <= i < files.len() && block_contents(data, ix.blocks[b]) == Ok::<Seq<u8>, Fault>(
                #[trigger] files[i],
            )
    } by {
        assert(is_stored_block(data, ix.blocks[b], sealed[b].0, sealed[b].1, opts));
        if b < p.packing.sealed.len() {
            assert(sealed[b] == p.packing.sealed[b]);
            assert(block_in_bounds(p.packing.sealed[b].1, files, opts.block_size as int));
            if sealed[b].1.len() > opts.block_size {
                let i = choose|i: int|
                    0 <= i < files.len() && #[trigger] files[i] == sealed[b].1;
                assert(files[i] == sealed[b].1);
            }
        }
    }
}

/// One entry of a kind counts as one.
spec fn kind_at(entries: Seq<EntryView>, kind: Kind) -> spec_fn(int) -> nat {
    |i: int|
        if entries[i].kind == kind {
            1nat
        } else {
            0nat
        }
}

proof fn lemma_count_kind_sum(entries: Seq<EntryView>, kind: Kind, n: nat)
    requires
        n <= entries.len(),
    ensures
        count_kind(entries.take(n as int), kind) == sum_below(kind_at(entries, kind), n),
    decreases n,
{
    if n > 0 {
        lemma_count_kind_sum(entries, kind, (n - 1) as nat);
        assert(entries.take(n as int).drop_last() =~= entries.take(n - 1));
    }
}

proof fn lemma_count_kind_at(entries: Seq<EntryView>, order: Seq<usize>, kind: Kind, n: nat)
    requires
        n <= order.len(),
        forall|i: int| 0 <= i < order.len() ==> 0 <= #[trigger] order[i] < entries.len(),
    ensures
        count_kind(in_order(entries, order).take(n as int), kind) == sum_at(
            kind_at(entries, kind),
            order.take(n as int),
        ),
    decreases n,
{
    if n > 0 {
        lemma_count_kind_at(entries, order, kind, (n - 1) as nat);
        let listed = in_order(entries, order);
        assert(listed.take(n as int).drop_last() =~= listed.take(n - 1));
        assert(order.take(n as int).drop_last() =~= order.take(n - 1));
    }
}

/// A listing keeps the number of entries of every kind.
pub proof fn law_listing_keeps_counts(entries: Seq<EntryView>, listed: Seq<EntryView>, kind: Kind)
    requires
        is_listing(entries, listed),
        entries.len() <= usize::MAX,
    ensures
        count_kind(listed, kind) == count_kind(entries, kind),
{
    let order = choose|order: Seq<usize>| #[trigger]
        is_index_order(entries, order) && listed == in_order(entries, order);
    law_order_keeps_sums(
        entries.len(),
        |a: int, b: int| crate::plan::entry_le(entries[a], entries[b]),
        order,
        kind_at(entries, kind),
    );
    lemma_count_kind_sum(entries, kind, entries.len());
    lemma_count_kind_at(entries, order, kind, order.len());
    assert(entries.take(entries.len() as int) =~= entries);
    assert(order.take(order.len() as int) =~= order);
    assert(listed.take(order.len() as int) =~= listed);
}

proof fn lemma_count_kind_add(a: Seq<EntryView>, b: Seq<EntryView>, kind: Kind)
    ensures
        count_kind(a + b, kind) == count_kind(a, kind) + count_kind(b, kind),
    decreases b.len(),
{
    if b.len() == 0 {
        assert(a + b =~= a);
    } else {
        lemma_count_kind_add(a, b.drop_last(), kind);
        assert((a + b).drop_last() =~= a + b.drop_last());
    }
}

proof fn lemma_count_only(entries: Seq<EntryView>, only: Kind, kind: Kind)
    requires
        forall|i: int| 0 <= i < entries.len() ==> (#[trigger] entries[i]).kind == only,
    ensures
        count_kind(entries, kind) == if kind == only {
            entries.len()
        } else {
            0
        },
    decreases entries.len(),
{
    if entries.len() > 0 {
        let init = entries.drop_last();
        assert forall|i: int| 0 <= i < init.len() implies (#[trigger] init[i]).kind == only by {
            assert(init[i] == entries[i]);
        }
        lemma_count_only(init, only, kind);
        assert(entries[entries.len() - 1].kind == only);
    }
}

proof fn lemma_count_none(entries: Seq<EntryView>, kind: Kind)
    requires
        forall|i: int| 0 <= i < entries.len() ==> (#[trigger] entries[i]).kind != kind,
    ensures
        count_kind(entries, kind) == 0,
    decreases entries.len(),
{
    if entries.len() > 0 {
        let init = entries.drop_last();
        assert forall|i: int| 0 <= i < init.len() implies (#[trigger] init[i]).kind != kind by {
            assert(init[i] == entries[i]);
        }
        lemma_count_none(init, kind);
        assert(entries[entries.len() - 1].kind != kind);
    }
}

/// The counts that creating an archive reports are those of its index.
pub proof fn law_stats_count_the_index(
    data: Seq<u8>,
    stats: WriteStats,
    inputs: Seq<Vec<Item>>,
    scan: ScanView,
    hashes: Seq<Seq<u8>>,
    files: Seq<Seq<u8>>,
    opts: WriteOptions,
)
    requires
        walked_all(inputs) == Ok::<ScanView, Fault>(scan),
        is_created(data, stats, scan, hashes, files, opts),
        scan.entries.len() + scan.candidates.len() <= usize::MAX,
    ensures
        opened(data) matches Ok((_, ix)) && {
            &&& stats.files == count_kind(ix.entries, Kind::File)
            &&& stats.dirs == count_kind(ix.entries, Kind::Dir)
            &&& stats.symlinks == count_kind(ix.entries, Kind::Symlink)
            &&& stats.blocks == ix.blocks.len()
            &&& stats.archive_bytes == data.len()
        },
{
    law_walks_are_sound(inputs);
    let (ix, p, order) = lemma_created(data, stats, scan, hashes, files, opts);
    let cs = scan.candidates;
    let all = scan.entries + p.entries;
    law_listing_keeps_counts(all, ix.entries, Kind::File);
    law_listing_keeps_counts(all, ix.entries, Kind::Dir);
    law_listing_keeps_counts(all, ix.entries, Kind::Symlink);
    lemma_count_kind_add(scan.entries, p.entries, Kind::File);
    lemma_count_kind_add(scan.entries, p.entries, Kind::Dir);
    lemma_count_kind_add(scan.entries, p.entries, Kind::Symlink);
    assert forall|j: int| 0 <= j < p.entries.len() implies (#[trigger] p.entries[j]).kind
        == Kind::File by {
        assert(is_entry_of(p.entries[j], cs[order[j] as int], hashes[order[j] as int]));
    }
    lemma_count_only(p.entries, Kind::File, Kind::File);
    lemma_count_only(p.entries, Kind::File, Kind::Dir);
    lemma_count_only(p.entries, Kind::File, Kind::Symlink);
    lemma_count_none(scan.entries, Kind::File);
}

/// Directories are listed before files, and files before symlinks.
pub proof fn law_directories_come_first(
    entries: Seq<EntryView>,
    listed: Seq<EntryView>,
    i: int,
    j: int,
)
    requires
        is_listing(entries, listed),
        0 <= i < j < listed.len(),
    ensures
        rank(listed[i].kind) <= rank(listed[j].kind),
        listed[j].kind == Kind::Dir ==> listed[i].kind == Kind::Dir,
        listed[i].kind == Kind::Symlink ==> listed[j].kind == Kind::Symlink,
        listed[i].kind == listed[j].kind ==> crate::text::text_le(listed[i].path, listed[j].path),
{
    let order = choose|order: Seq<usize>| #[trigger]
        is_index_order(entries, order) && listed == in_order(entries, order);
    assert(0 <= order[i] < entries.len() && 0 <= order[j] < entries.len());
}

/// Sorting makes lanes contiguous: after a file of the fast lane come only files
/// of the fast lane.
pub proof fn law_lanes_are_contiguous(
    candidates: Seq<CandidateView>,
    order: Seq<usize>,
    i: int,
    j: int,
)
    requires
        is_pack_order(candidates, order),
        0 <= i < j < order.len(),
        path_lane(candidates[order[i] as int].path) == Lane::Fast,
    ensures
        path_lane(candidates[order[j] as int].path) == Lane::Fast,
{
    assert(0 <= order[i] < candidates.len() && 0 <= order[j] < candidates.len());
}

/// A file depends only on the blocks that its segments touch: two archives that
/// agree on the bytes of those blocks agree on the file.
pub proof fn law_file_depends_on_its_blocks(
    a: Seq<u8>,
    b: Seq<u8>,
    blocks: Seq<BlockInfo>,
    segments: Seq<Segment>,
)
    requires
        forall|i: int|
            0 <= i < segments.len() && (#[trigger] segments[i]).block < blocks.len() ==> ({
                let info = blocks[segments[i].block as int];
                window(a, info.offset as int, info.clen as int) == window(
                    b,
                    info.offset as int,
                    info.clen as int,
                )
            }),
    ensures
        contents(a, blocks, segments) == contents(b, blocks, segments),
    decreases segments.len(),
{
    if segments.len() > 0 {
        let init = segments.drop_last();
        assert forall|i: int|
            0 <= i < init.len() && (#[trigger] init[i]).block < blocks.len() implies ({
            let info = blocks[init[i].block as int];
            window(a, info.offset as int, info.clen as int) == window(
                b,
                info.offset as int,
                info.clen as int,
            )
        }) by {
            assert(init[i] == segments[i]);
        }
        law_file_depends_on_its_blocks(a, b, blocks, init);
        assert(segments[segments.len() - 1] == segments.last());
    }
}

/// The file packed as number `j`, if it is at or above the block size, is alone
/// in a block.
spec fn is_alone_if_large(
    p: PackedView,
    files: Seq<Seq<u8>>,
    order: Seq<usize>,
    opts: WriteOptions,
    j: int,
) -> bool {
    let file = files[order[j] as int];
    let s = p.entries[j].segments[0];
    file.len() > 0 && file.len() >= opts.block_size ==> {
        &&& p.entries[j].segments.len() == 1
        &&& s.offset == 0
        &&& s.len == file.len()
        &&& s.block < p.packing.sealed.len()
        &&& p.packing.sealed[s.block as int].1 == file
    }
}

/// Packing only adds blocks.
proof fn lemma_sealed_stay(v: PackView, lane: Lane, size: u64, data: Seq<u8>, block_size: int)
    requires
        pack_file(v, lane, size, data, block_size) is Ok,
    ensures
        ({
            let (after, segments) = pack_file(v, lane, size, data, block_size)->Ok_0;
            &&& after.sealed.len() >= v.sealed.len()
            &&& forall|b: int|
                0 <= b < v.sealed.len() ==> #[trigger] after.sealed[b] == v.sealed[b]
            &&& size > 0 && size >= block_size ==> {
                &&& segments.len() == 1
                &&& segments[0].offset == 0
                &&& segments[0].len == size
                &&& segments[0].block < after.sealed.len()
                &&& after.sealed[segments[0].block as int].1 == data
            }
        }),
{
}

proof fn lemma_large_alone(
    cs: Seq<CandidateView>,
    hashes: Seq<Seq<u8>>,
    files: Seq<Seq<u8>>,
    order: Seq<usize>,
    opts: WriteOptions,
    n: nat,
)
    requires
        n <= order.len(),
        lists_files(order, cs.len()),
        files.len() == cs.len(),
        empty_files_are_empty(cs, files),
        opts.dedup ==> tell_apart(hashes, files),
        packed_upto(cs, hashes, files, order, opts, n) is Ok,
    ensures
        forall|j: int|
            0 <= j < n ==> #[trigger] is_alone_if_large(
                packed_upto(cs, hashes, files, order, opts, n)->Ok_0,
                files,
                order,
                opts,
                j,
            ),
    decreases n,
{
    if n > 0 {
        let m = (n - 1) as nat;
        lemma_large_alone(cs, hashes, files, order, opts, m);
        lemma_packed_well(cs, hashes, files, order, opts, m);
        let p = packed_upto(cs, hashes, files, order, opts, m)->Ok_0;
        let q = packed_upto(cs, hashes, files, order, opts, n)->Ok_0;
        assert(order[m as int] < cs.len());
        let k = order[m as int] as int;
        let c = cs[k];
        let data = files[k];
        let hash = hashes[k];
        assert(c.size == 0 ==> data.len() == 0);
        let fresh = !(opts.dedup && p.seen.contains_key(hash));
        if fresh {
            lemma_sealed_stay(
                p.packing,
                chosen_lane(opts, c.path),
                c.size,
                data,
                opts.block_size as int,
            );
        }
        assert forall|j: int| 0 <= j < n implies #[trigger] is_alone_if_large(
            q,
            files,
            order,
            opts,
            j,
        ) by {
            if j < m {
                assert(is_alone_if_large(p, files, order, opts, j));
                assert(q.entries[j] == p.entries[j]);
            } else if !fresh {
                let i = choose|i: int|
                    0 <= i < m && hashes[#[trigger] order[i] as int] == hash
                        && p.entries[i].segments == p.seen[hash];
                assert(is_alone_if_large(p, files, order, opts, i));
                assert(order[i] < cs.len());
                assert(hashes[order[i] as int] == hashes[k]);
                assert(files[order[i] as int] == data);
            }
        }
    }
}

/// A file at or above the block size is alone in a block.
pub proof fn law_large_files_are_alone(
    data: Seq<u8>,
    stats: WriteStats,
    scan: ScanView,
    hashes: Seq<Seq<u8>>,
    files: Seq<Seq<u8>>,
    opts: WriteOptions,
    i: int,
)
    requires
        is_created(data, stats, scan, hashes, files, opts),
        files.len() == scan.candidates.len(),
        scan.entries.len() + scan.candidates.len() <= usize::MAX,
        empty_files_are_empty(scan.candidates, files),
        opts.dedup ==> tell_apart(hashes, files),
        0 <= i < files.len(),
        files[i].len() > 0,
        files[i].len() >= opts.block_size,
    ensures
        opened(data) matches Ok((_, ix)) && exists|k: int|
            {
                &&& 0 <= k < ix.entries.len()
                &&& is_entry_of(#[trigger] ix.entries[k], scan.candidates[i], hashes[i])
                &&& ix.entries[k].segments.len() == 1
                &&& numbered_block(data, ix.blocks, ix.entries[k].segments[0].block) == Ok::<
                    Seq<u8>,
                    Fault,
                >(files[i])
            },
{
    let (ix, p, order) = lemma_created(data, stats, scan, hashes, files, opts);
    let cs = scan.candidates;
    assert(order.contains(i as usize));
    let j = choose|j: int| 0 <= j < order.len() && order[j] == i as usize;
    lemma_large_alone(cs, hashes, files, order, opts, cs.len());
    assert(packed_upto(cs, hashes, files, order, opts, cs.len())->Ok_0 == p);
    assert(is_alone_if_large(p, files, order, opts, j));
    let sealed = sealed_up(p.packing).sealed;
    let b = p.entries[j].segments[0].block as int;
    assert(sealed[b] == p.packing.sealed[b]);
    assert(is_stored_block(data, ix.blocks[b], sealed[b].0, sealed[b].1, opts));
    let k = lemma_listed(scan, p, ix, j);
    assert(is_entry_of(ix.entries[k], scan.candidates[i], hashes[i]));
}

/// How many blocks packing has begun.
pub open spec fn begun(v: PackView) -> nat {
    if v.buf.len() > 0 {
        v.sealed.len() + 1
    } else {
        v.sealed.len()
    }
}

/// File `i` does not have the size that was announced for it, and packing
/// reports that.
pub open spec fn is_size_fault(
    candidates: Seq<CandidateView>,
    files: Seq<Seq<u8>>,
    opts: WriteOptions,
    i: int,
    f: Fault,
) -> bool {
    let want = candidates[i].size;
    let got = files[i].len() as u64;
    &&& 0 <= i < candidates.len()
    &&& files[i].len() != want
    &&& f == if want >= opts.block_size {
        Fault::ShortBlock { got, want }
    } else {
        Fault::SizeChanged { got, want }
    }
}

pub proof fn lemma_begun(
    cs: Seq<CandidateView>,
    hashes: Seq<Seq<u8>>,
    files: Seq<Seq<u8>>,
    order: Seq<usize>,
    opts: WriteOptions,
    n: nat,
)
    requires
        n <= order.len(),
        lists_files(order, cs.len()),
    ensures
        match packed_upto(cs, hashes, files, order, opts, n) {
            Ok(p) => begun(p.packing) <= n,
            Err(f) => {
                ||| f == Fault::TooManyBlocks && n > u32::MAX
                ||| exists|i: int| is_size_fault(cs, files, opts, i, f)
            },
        },
    decreases n,
{
    if n > 0 {
        let m = (n - 1) as nat;
        lemma_begun(cs, hashes, files, order, opts, m);
        assert(0 <= order[m as int] < cs.len());
        let k = order[m as int] as int;
        match (
            packed_upto(cs, hashes, files, order, opts, m),
            packed_upto(cs, hashes, files, order, opts, n),
        ) {
            (Ok(p), Err(f)) => {
                if f != Fault::TooManyBlocks {
                    assert(is_size_fault(cs, files, opts, k, f));
                }
            },
            _ => {},
        }
    }
}

/// Packing fails for two reasons only: a file does not have the size that it was
/// found with, or there are more files than blocks can be numbered.
pub proof fn law_packing_faults(
    scan: ScanView,
    hashes: Seq<Seq<u8>>,
    files: Seq<Seq<u8>>,
    opts: WriteOptions,
    f: Fault,
)
    requires
        packs_to(scan, hashes, files, opts, Err(f)),
    ensures
        (f == Fault::TooManyBlocks && scan.candidates.len() > u32::MAX) || (exists|i: int|
            is_size_fault(scan.candidates, files, opts, i, f)),
{
    let cs = scan.candidates;
    let order = choose|order: Seq<usize>|
        {
            &&& #[trigger] is_pack_order(cs, order)
            &&& packed_upto(cs, hashes, files, order, opts, cs.len()) == Err::<PackedView, Fault>(f)
        };
    lemma_begun(cs, hashes, files, order, opts, cs.len());
}

} // verus!
