//! What creating an archive comes to: which entries the walked items become,
//! in which order files are packed, and what the finished archive holds.

use vstd::prelude::*;

use crate::classify::{law_pack_order, pack_le, path_dir, path_lane, sort_extension, Lane};
use crate::codec::{zstd_packed, Codec};
use crate::digest::blake3_of;
use crate::error::Fault;
use crate::index::{
    footer_bytes, index_appended, EntryView, Footer, IndexView, Kind, Segment, FOOTER_LEN,
    INDEX_LEVEL,
};
use crate::order::is_order_by;
use crate::pack::{
    are_stored, block_refused, end_of, makes_too_much, outgrows, pack_file, pack_start, sealed_up, PackView,
};
use crate::paths::{archive_path, PathPart};
use crate::raw::index_bytes;
use crate::text::{lemma_text_antisymmetric, text_le};
use crate::writer::WriteOptions;

verus! {

/// What was found at a path.
#[derive(Debug)]
pub enum What {
    Dir,
    /// A symlink, with its target.
    Symlink(String),
    /// A regular file, with its size.
    File(u64),
    /// A socket, fifo or device: nothing that has a meaning inside an archive.
    Other,
}

/// Something found on the walk through an input.
#[derive(Debug)]
pub struct Item {
    /// The components of its path, relative to the parent of the input.
    pub parts: Vec<PathPart>,
    pub mode: u32,
    pub mtime: i64,
    pub mtime_nanos: u32,
    pub what: What,
}

/// A file discovered during the walk, before it is packed.
#[verifier::ext_equal]
pub struct CandidateView {
    pub path: Seq<char>,
    pub mode: u32,
    pub mtime: i64,
    pub mtime_nanos: u32,
    pub size: u64,
}

/// What the walk has found: the entries of directories and symlinks, and the
/// files, which are not packed yet.
#[verifier::ext_equal]
pub struct ScanView {
    pub entries: Seq<EntryView>,
    pub candidates: Seq<CandidateView>,
}

/// Before the walk.
pub open spec fn scan_start() -> ScanView {
    ScanView { entries: Seq::empty(), candidates: Seq::empty() }
}

/// The entry of a directory.
pub open spec fn dir_entry(path: Seq<char>, item: Item) -> EntryView {
    EntryView {
        path,
        kind: Kind::Dir,
        mode: item.mode,
        mtime: item.mtime,
        mtime_nanos: item.mtime_nanos,
        size: 0,
        hash: None,
        link_target: None,
        segments: Seq::empty(),
    }
}

/// The entry of a symlink.
pub open spec fn link_entry(path: Seq<char>, item: Item, target: Seq<char>) -> EntryView {
    EntryView { kind: Kind::Symlink, link_target: Some(target), ..dir_entry(path, item) }
}

/// One item of the walk taken in. An item whose path has no components is passed
/// over, and so is whatever is neither directory nor symlink nor file.
pub open spec fn scan_item(s: ScanView, item: Item) -> Result<ScanView, Fault> {
    if item.parts@.len() == 0 {
        Ok(s)
    } else {
        match archive_path(item.parts@) {
            Err(f) => Err(f),
            Ok(path) => Ok(
                match item.what {
                    What::Dir => ScanView { entries: s.entries.push(dir_entry(path, item)), ..s },
                    What::Symlink(target) => ScanView {
                        entries: s.entries.push(link_entry(path, item, target@)),
                        ..s
                    },
                    What::File(size) => ScanView {
                        candidates: s.candidates.push(
                            CandidateView {
                                path,
                                mode: item.mode,
                                mtime: item.mtime,
                                mtime_nanos: item.mtime_nanos,
                                size,
                            },
                        ),
                        ..s
                    },
                    What::Other => s,
                },
            ),
        }
    }
}

/// The walk through one input taken in.
pub open spec fn walked(s: ScanView, items: Seq<Item>) -> Result<ScanView, Fault>
    decreases items.len(),
{
    if items.len() == 0 {
        Ok(s)
    } else {
        match walked(s, items.drop_last()) {
            Err(f) => Err(f),
            Ok(t) => scan_item(t, items.last()),
        }
    }
}

/// The walks through all inputs taken in.
pub open spec fn walked_all(inputs: Seq<Vec<Item>>) -> Result<ScanView, Fault>
    decreases inputs.len(),
{
    if inputs.len() == 0 {
        Ok(scan_start())
    } else {
        match walked_all(inputs.drop_last()) {
            Err(f) => Err(f),
            Ok(s) => walked(s, inputs.last()@),
        }
    }
}

/// The sum of the sizes of some files.
pub open spec fn total_bytes(candidates: Seq<CandidateView>) -> nat
    decreases candidates.len(),
{
    if candidates.len() == 0 {
        0
    } else {
        total_bytes(candidates.drop_last()) + candidates.last().size as nat
    }
}

/// How many entries are of a kind.
pub open spec fn count_kind(entries: Seq<EntryView>, kind: Kind) -> nat
    decreases entries.len(),
{
    if entries.len() == 0 {
        0
    } else {
        count_kind(entries.drop_last(), kind) + if entries.last().kind == kind {
            1nat
        } else {
            0nat
        }
    }
}

/// `order` lists the files in the order in which they are packed: by lane,
/// extension, directory and name.
pub open spec fn is_pack_order(candidates: Seq<CandidateView>, order: Seq<usize>) -> bool {
    is_order_by(
        candidates.len(),
        |a: int, b: int| pack_le(candidates[a].path, candidates[b].path),
        order,
    )
}

/// The lane in which a file is packed.
pub open spec fn chosen_lane(opts: WriteOptions, path: Seq<char>) -> Lane {
    if opts.fast_lane {
        path_lane(path)
    } else {
        Lane::Compress
    }
}

/// The entry of a file.
pub open spec fn file_entry(c: CandidateView, hash: Seq<u8>, segments: Seq<Segment>) -> EntryView {
    EntryView {
        path: c.path,
        kind: Kind::File,
        mode: c.mode,
        mtime: c.mtime,
        mtime_nanos: c.mtime_nanos,
        size: c.size,
        hash: Some(hash),
        link_target: None,
        segments,
    }
}

/// Some files packed: the blocks, where each digest was stored, the files'
/// entries, and what deduplication saved.
#[verifier::ext_equal]
pub struct PackedView {
    pub packing: PackView,
    pub seen: Map<Seq<u8>, Seq<Segment>>,
    pub entries: Seq<EntryView>,
    pub deduped_files: nat,
    pub deduped_bytes: nat,
}

/// No file packed.
pub open spec fn packed_start() -> PackedView {
    PackedView {
        packing: pack_start(),
        seen: Map::empty(),
        entries: Seq::empty(),
        deduped_files: 0,
        deduped_bytes: 0,
    }
}

/// One more file packed. With deduplication, a file whose digest is known takes
/// the segments that are known for it, and no place. `hash` is the digest that
/// the file had when it was hashed, `data` what it reads as when it is packed.
pub open spec fn pack_next(
    p: PackedView,
    c: CandidateView,
    hash: Seq<u8>,
    data: Seq<u8>,
    opts: WriteOptions,
) -> Result<PackedView, Fault> {
    if opts.dedup && p.seen.contains_key(hash) {
        Ok(
            PackedView {
                entries: p.entries.push(file_entry(c, hash, p.seen[hash])),
                deduped_files: p.deduped_files + 1,
                deduped_bytes: p.deduped_bytes + c.size as nat,
                ..p
            },
        )
    } else {
        match pack_file(
            p.packing,
            chosen_lane(opts, c.path),
            c.size,
            data,
            opts.block_size as int,
        ) {
            Err(f) => Err(f),
            Ok((packing, segments)) => Ok(
                PackedView {
                    packing,
                    seen: if opts.dedup {
                        p.seen.insert(hash, segments)
                    } else {
                        p.seen
                    },
                    entries: p.entries.push(file_entry(c, hash, segments)),
                    ..p
                },
            ),
        }
    }
}

/// The first `n` files in `order` packed. `hashes` holds the files' digests,
/// `files` what they read as.
pub open spec fn packed_upto(
    candidates: Seq<CandidateView>,
    hashes: Seq<Seq<u8>>,
    files: Seq<Seq<u8>>,
    order: Seq<usize>,
    opts: WriteOptions,
    n: nat,
) -> Result<PackedView, Fault>
    decreases n,
{
    if n == 0 {
        Ok(packed_start())
    } else {
        match packed_upto(candidates, hashes, files, order, opts, (n - 1) as nat) {
            Err(f) => Err(f),
            Ok(p) => {
                let k = order[n - 1] as int;
                pack_next(p, candidates[k], hashes[k], files[k], opts)
            },
        }
    }
}

/// All files packed, or the fault that stops packing.
pub open spec fn packs_to(
    scan: ScanView,
    hashes: Seq<Seq<u8>>,
    files: Seq<Seq<u8>>,
    opts: WriteOptions,
    result: Result<PackedView, Fault>,
) -> bool {
    exists|order: Seq<usize>|
        {
            &&& #[trigger] is_pack_order(scan.candidates, order)
            &&& packed_upto(scan.candidates, hashes, files, order, opts, scan.candidates.len())
                == result
        }
}

/// The digests of some files, one for each.
pub open spec fn digests_of(files: Seq<Seq<u8>>) -> Seq<Seq<u8>> {
    files.map_values(|f: Seq<u8>| blake3_of(f))
}

/// The rank of a kind in the index: directories first, so that creating them is
/// a single forward pass, and symlinks last.
pub open spec fn rank(kind: Kind) -> u8 {
    match kind {
        Kind::Dir => 0,
        Kind::File => 1,
        Kind::Symlink => 2,
    }
}

/// Entries are listed by rank, then by path.
pub open spec fn entry_le(a: EntryView, b: EntryView) -> bool {
    if rank(a.kind) != rank(b.kind) {
        rank(a.kind) < rank(b.kind)
    } else {
        text_le(a.path, b.path)
    }
}

/// `order` lists the entries in the order in which an index lists them.
pub open spec fn is_index_order(entries: Seq<EntryView>, order: Seq<usize>) -> bool {
    is_order_by(entries.len(), |a: int, b: int| entry_le(entries[a], entries[b]), order)
}

/// The entries in an order.
pub open spec fn in_order(entries: Seq<EntryView>, order: Seq<usize>) -> Seq<EntryView> {
    Seq::new(order.len(), |i: int| entries[order[i] as int])
}

/// `listed` is `entries` in the order in which an index lists them.
pub open spec fn is_listing(entries: Seq<EntryView>, listed: Seq<EntryView>) -> bool {
    exists|order: Seq<usize>| #[trigger]
        is_index_order(entries, order) && listed == in_order(entries, order)
}

/// Who an archive says it was created by.
pub open spec fn provenance() -> Seq<char> {
    "embr "@ + crate::VERSION@
}

/// `data` ends, from `end` on, with the index and the footer that describes it.
pub open spec fn is_finished(data: Seq<u8>, end: int, ix: IndexView) -> bool {
    exists|mid: Seq<u8>, f: Footer|
        {
            &&& #[trigger] index_appended(data.take(end), mid, f@, ix)
            &&& data == mid + footer_bytes(f@)
        }
}

/// `data` is an archive with the index `ix`, made from what the walk found and
/// what packing came to.
pub open spec fn is_archive_of(
    data: Seq<u8>,
    ix: IndexView,
    scan: ScanView,
    p: PackedView,
    opts: WriteOptions,
) -> bool {
    &&& are_stored(data, ix.blocks, sealed_up(p.packing).sealed, opts)
    &&& is_listing(scan.entries + p.entries, ix.entries)
    &&& ix.created_by == provenance()
    &&& is_finished(data, end_of(ix.blocks, ix.blocks.len() as int), ix)
}

/// A block within the block size, behind `data`, would end where no file offset
/// points.
pub open spec fn block_outgrows(data: Seq<u8>, opts: WriteOptions) -> bool {
    exists|raw: Seq<u8>, lane: Lane| #[trigger]
        outgrows(data, raw, lane, opts) && raw.len() <= opts.block_size
}

/// The codec may fail on a block within the block size.
pub open spec fn some_block_refused(opts: WriteOptions) -> bool {
    exists|raw: Seq<u8>, lane: Lane| #[trigger]
        block_refused(raw, lane, opts) && raw.len() <= opts.block_size
}

/// `ix` is the index that belongs behind the blocks in `data`.
pub open spec fn indexes(ix: IndexView, data: Seq<u8>, scan: ScanView, opts: WriteOptions) -> bool {
    exists|hashes: Seq<Seq<u8>>, files: Seq<Seq<u8>>, p: PackedView|
        {
            &&& #[trigger] packs_to(scan, hashes, files, opts, Ok(p))
            &&& are_stored(data, ix.blocks, sealed_up(p.packing).sealed, opts)
            &&& is_listing(scan.entries + p.entries, ix.entries)
            &&& ix.created_by == provenance()
        }
}

/// The index or the footer behind `data` would end where no file offset points.
pub open spec fn index_outgrows(data: Seq<u8>, scan: ScanView, opts: WriteOptions) -> bool {
    ||| exists|ix: IndexView, packed: Seq<u8>|
        {
            &&& #[trigger] zstd_packed(packed, index_bytes(ix), INDEX_LEVEL)
            &&& indexes(ix, data, scan, opts)
            &&& data.len() + packed.len() > u64::MAX
        }
    ||| data.len() + FOOTER_LEN > u64::MAX
}

/// What an encoder has made of one of these files would outgrow the archive, which is
/// `data` by then.
pub open spec fn some_stream_outgrows(
    files: Seq<Seq<u8>>,
    candidates: Seq<CandidateView>,
    opts: WriteOptions,
    data: Seq<u8>,
) -> bool {
    exists|k: int, n: int|
        {
            &&& 0 <= k < candidates.len()
            &&& 0 <= n <= files[k].len()
            &&& #[trigger] makes_too_much(
                files[k].take(n),
                chosen_lane(opts, candidates[k].path),
                opts,
                data,
            )
        }
}

/// The codec may fail on one of these files.
pub open spec fn some_stream_refused(
    files: Seq<Seq<u8>>,
    candidates: Seq<CandidateView>,
    opts: WriteOptions,
) -> bool {
    exists|k: int, n: int|
        {
            &&& 0 <= k < candidates.len()
            &&& 0 <= n <= files[k].len()
            &&& #[trigger] block_refused(
                files[k].take(n),
                chosen_lane(opts, candidates[k].path),
                opts,
            )
        }
}

/// `data` cannot go on: a block, a file streamed, the index or the footer behind it would
/// end where no file offset points.
pub open spec fn is_outgrown(
    data: Seq<u8>,
    scan: ScanView,
    files: Seq<Seq<u8>>,
    opts: WriteOptions,
) -> bool {
    ||| block_outgrows(data, opts)
    ||| some_stream_outgrows(files, scan.candidates, opts, data)
    ||| index_outgrows(data, scan, opts)
}

/// Some file is to be stored in a block that is compressed.
pub open spec fn needs_encoder(candidates: Seq<CandidateView>, opts: WriteOptions) -> bool {
    exists|k: int|
        {
            &&& 0 <= k < candidates.len()
            &&& (#[trigger] candidates[k]).size > 0
            &&& opts.lane_choice(chosen_lane(opts, candidates[k].path)).0 != Codec::Store
        }
}

/// Some file is longer than a file offset can say.
pub open spec fn has_endless_file(files: Seq<Seq<u8>>) -> bool {
    exists|i: int| 0 <= i < files.len() && (#[trigger] files[i]).len() > u64::MAX
}

/// Sizes add up: the bytes of one file are its size, and those of two lists of files are
/// the bytes of the one and of the other.
pub proof fn law_total_bytes_add_up(a: Seq<CandidateView>, b: Seq<CandidateView>, c: CandidateView)
    ensures
        total_bytes(Seq::empty()) == 0,
        total_bytes(seq![c]) == c.size,
        total_bytes(a + b) == total_bytes(a) + total_bytes(b),
    decreases b.len(),
{
    reveal_with_fuel(total_bytes, 2);
    assert(seq![c].drop_last() =~= Seq::<CandidateView>::empty());
    if b.len() == 0 {
        assert(a + b =~= a);
    } else {
        law_total_bytes_add_up(a, b.drop_last(), c);
        assert((a + b).drop_last() =~= a + b.drop_last());
    }
}

/// Counts add up: one entry counts for its kind and for no other, and two lists of entries
/// count as the one and the other.
pub proof fn law_counts_add_up(a: Seq<EntryView>, b: Seq<EntryView>, e: EntryView, kind: Kind)
    ensures
        count_kind(Seq::empty(), kind) == 0,
        e.kind == kind ==> count_kind(seq![e], kind) == 1,
        e.kind != kind ==> count_kind(seq![e], kind) == 0,
        count_kind(a + b, kind) == count_kind(a, kind) + count_kind(b, kind),
    decreases b.len(),
{
    reveal_with_fuel(count_kind, 2);
    assert(seq![e].drop_last() =~= Seq::<EntryView>::empty());
    if b.len() == 0 {
        assert(a + b =~= a);
    } else {
        law_counts_add_up(a, b.drop_last(), e, kind);
        assert((a + b).drop_last() =~= a + b.drop_last());
    }
}

/// Where the fast lane is off, every file is packed with full effort; where it is on, a
/// file is packed in the lane that its name says.
pub proof fn law_lane_is_chosen(opts: WriteOptions, path: Seq<char>)
    ensures
        chosen_lane(opts, path) == Lane::Fast <==> opts.fast_lane && path_lane(path) == Lane::Fast,
{
}

/// An archive says that it was created by `embr 0.1.0`.
pub proof fn law_provenance()
    ensures
        provenance() == "embr 0.1.0"@,
{
    reveal_strlit("embr ");
    reveal_strlit("0.1.0");
    reveal_strlit("embr 0.1.0");
    assert(provenance() =~= "embr 0.1.0"@);
}

/// Files that are alike stay together: between two files of one lane and one extension, in
/// the order of packing, there is none of another; and the directories of such files come
/// in order.
pub proof fn law_similar_files_stay_together(
    candidates: Seq<CandidateView>,
    order: Seq<usize>,
    i: int,
    j: int,
    k: int,
)
    requires
        is_pack_order(candidates, order),
        0 <= i < j < k < order.len(),
        path_lane(candidates[order[i] as int].path) == path_lane(candidates[order[k] as int].path),
        sort_extension(candidates[order[i] as int].path) == sort_extension(
            candidates[order[k] as int].path,
        ),
    ensures
        path_lane(candidates[order[j] as int].path) == path_lane(candidates[order[i] as int].path),
        sort_extension(candidates[order[j] as int].path) == sort_extension(
            candidates[order[i] as int].path,
        ),
        text_le(
            path_dir(candidates[order[i] as int].path),
            path_dir(candidates[order[j] as int].path),
        ),
{
    assert(0 <= order[i] < candidates.len());
    assert(0 <= order[j] < candidates.len());
    assert(0 <= order[k] < candidates.len());
    let a = candidates[order[i] as int].path;
    let b = candidates[order[j] as int].path;
    let c = candidates[order[k] as int].path;
    assert(pack_le(a, b));
    assert(pack_le(b, c));
    law_pack_order(a, b);
    law_pack_order(b, c);
    if path_lane(b) == path_lane(a) {
        lemma_text_antisymmetric(sort_extension(a), sort_extension(b));
    }
}

/// Directories have the rank 0, files 1 and symlinks 2. An entry is listed before another
/// if its rank is smaller, or if it is the same and its path comes first.
pub proof fn law_entry_order(a: EntryView, b: EntryView)
    ensures
        rank(Kind::Dir) == 0,
        rank(Kind::File) == 1,
        rank(Kind::Symlink) == 2,
        a.kind == b.kind ==> (entry_le(a, b) <==> text_le(a.path, b.path)),
        a.kind == Kind::Dir && b.kind != Kind::Dir ==> entry_le(a, b) && !entry_le(b, a),
        a.kind != Kind::Symlink && b.kind == Kind::Symlink ==> entry_le(a, b) && !entry_le(b, a),
{
}

} // verus!
