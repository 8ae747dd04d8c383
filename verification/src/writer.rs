//! Archive creation.
//!
//! The pipeline is: walk, hash, sort, pack. Sorting between hashing and packing
//! is the whole point; see [`crate::classify::sort_key`]. Hashing up front is what
//! makes whole-file dedup possible, which on folders containing a duplicated
//! subtree is worth far more than any codec choice.

use vstd::prelude::*;

use crate::classify::{is_key_of, lane_for, pack_le, Lane, PackKey};
use crate::codec::Codec;
use crate::error::{Error, Fault};
use crate::index::{
    copy_segments, entry_views, header_bytes, write_header, Entry, EntryView, Index, IndexView,
    Kind, Segment,
};
use crate::order::{
    lemma_order_by_keys, lemma_order_distinct, lemma_sum_at, stable_order, sum_at, sum_below, Key,
};
use crate::pack::{
    block_refused, end_of, is_reading, is_write_fault, lemma_stored_stays, makes_too_much,
    sealed_up, PackView, Packer,
};
use crate::paths::to_archive_path;
use crate::plan::{
    chosen_lane, count_kind, digests_of, dir_entry, entry_le, file_entry, has_endless_file,
    in_order, index_outgrows, indexes, is_archive_of, is_finished, is_index_order, is_listing,
    is_outgrown, is_pack_order, link_entry, needs_encoder, pack_next, packed_start, packed_upto,
    packs_to, rank, scan_item, scan_start, total_bytes, walked, walked_all,
    CandidateView, Item, PackedView, ScanView, What,
};
use crate::reading::{
    bytes_read, hash_file, hashes_to, law_reads_as_supplied, lemma_nothing_read,
    lemma_pieces_supplied, lemma_read_on, read_fails, read_on, read_since, reads_as, reads_begin,
    reads_past, supplied, Files, Read,
};
use crate::seen::SeenFiles;
use crate::stream::{
    lemma_nothing_passed, lemma_passed_on, passed_on, since, Output, Progress, Sink,
};
use crate::text::{chars_of, lemma_text_total, lemma_text_transitive, no_later, text_le};

verus! {

pub const DEFAULT_BLOCK_SIZE: usize = 67_108_864;

/// Level of the fast lane.
pub const FAST_LANE_LEVEL: i32 = 1;

#[derive(Debug, Clone, Copy)]
pub struct WriteOptions {
    pub codec: Codec,
    pub level: i32,
    pub block_size: usize,
    /// Collapse byte-identical files into a single stored copy.
    pub dedup: bool,
    /// Route already-compressed file types through the cheap lane.
    pub fast_lane: bool,
    /// Follow symlinks instead of archiving them as links.
    pub follow_symlinks: bool,
}

/// The options that hold unless others are asked for.
pub open spec fn default_options() -> WriteOptions {
    WriteOptions {
        codec: Codec::Zstd,
        level: 12,
        block_size: DEFAULT_BLOCK_SIZE,
        dedup: true,
        fast_lane: true,
        follow_symlinks: false,
    }
}

/// Unless others are asked for, blocks of 64 MiB are made by zstd at level 12, identical
/// files are stored once, already-compressed files go through the fast lane, and symlinks
/// are archived as links.
pub proof fn law_default_options()
    ensures
        default_options().codec == Codec::Zstd,
        default_options().level == 12,
        default_options().block_size == 64 * 1024 * 1024,
        default_options().dedup,
        default_options().fast_lane,
        !default_options().follow_symlinks,
{
}

impl Default for WriteOptions {
    fn default() -> (o: WriteOptions)
        ensures
            o == (WriteOptions {
                codec: Codec::Zstd,
                level: 12,
                block_size: DEFAULT_BLOCK_SIZE,
                dedup: true,
                fast_lane: true,
                follow_symlinks: false,
            }),
            o == default_options(),
    {
        WriteOptions {
            codec: Codec::Zstd,
            level: 12,
            block_size: DEFAULT_BLOCK_SIZE,
            dedup: true,
            fast_lane: true,
            follow_symlinks: false,
        }
    }
}

impl WriteOptions {
    /// Codec and level for a lane. The fast lane always uses zstd regardless of
    /// the archive's codec: on already-compressed payloads, xz costs many times
    /// more CPU for no measurable gain, so honouring the archive's codec there
    /// would be a pessimisation, not a preference.
    pub open spec fn lane_choice(self, lane: Lane) -> (Codec, i32) {
        match lane {
            Lane::Compress => (self.codec, self.level),
            Lane::Fast => (Codec::Zstd, FAST_LANE_LEVEL),
        }
    }

    /// Codec and level for a lane.
    pub fn lane_codec(&self, lane: Lane) -> (r: (Codec, i32))
        ensures
            r == self.lane_choice(lane),
    {
        match lane {
            Lane::Compress => (self.codec, self.level),
            Lane::Fast => (Codec::Zstd, FAST_LANE_LEVEL),
        }
    }
}

/// The full-effort lane has the codec and the level that are asked for, whatever they are;
/// the fast lane has zstd at level 1, whatever is asked for.
pub proof fn law_lane_choice(opts: WriteOptions)
    ensures
        opts.lane_choice(Lane::Compress).0 == opts.codec,
        opts.lane_choice(Lane::Compress).1 == opts.level,
        opts.lane_choice(Lane::Fast).0 == Codec::Zstd,
        opts.lane_choice(Lane::Fast).1 == 1,
{
}

/// What creating an archive did.
#[derive(Debug, Clone, Copy, PartialEq, Eq, Structural)]
pub struct WriteStats {
    pub files: u64,
    pub dirs: u64,
    pub symlinks: u64,
    pub input_bytes: u64,
    /// Bytes that dedup meant we never had to store.
    pub deduped_bytes: u64,
    pub deduped_files: u64,
    pub blocks: u64,
    pub archive_bytes: u64,
}

impl Default for WriteStats {
    fn default() -> (s: WriteStats)
        ensures
            s == (WriteStats {
                files: 0,
                dirs: 0,
                symlinks: 0,
                input_bytes: 0,
                deduped_bytes: 0,
                deduped_files: 0,
                blocks: 0,
                archive_bytes: 0,
            }),
    {
        WriteStats {
            files: 0,
            dirs: 0,
            symlinks: 0,
            input_bytes: 0,
            deduped_bytes: 0,
            deduped_files: 0,
            blocks: 0,
            archive_bytes: 0,
        }
    }
}

/// A file discovered during the walk, before it is packed.
#[derive(Debug)]
pub struct Candidate {
    pub path: String,
    pub mode: u32,
    pub mtime: i64,
    pub mtime_nanos: u32,
    pub size: u64,
}

impl View for Candidate {
    type V = CandidateView;

    open spec fn view(&self) -> CandidateView {
        CandidateView {
            path: self.path@,
            mode: self.mode,
            mtime: self.mtime,
            mtime_nanos: self.mtime_nanos,
            size: self.size,
        }
    }
}

/// What each of some candidates says.
pub open spec fn candidate_views(candidates: Seq<Candidate>) -> Seq<CandidateView> {
    candidates.map_values(|c: Candidate| c@)
}

/// What the walk has found.
#[derive(Debug)]
pub struct Scan {
    /// Directories and symlinks; they have no data.
    pub entries: Vec<Entry>,
    pub candidates: Vec<Candidate>,
}

impl View for Scan {
    type V = ScanView;

    open spec fn view(&self) -> ScanView {
        ScanView {
            entries: entry_views(self.entries@),
            candidates: candidate_views(self.candidates@),
        }
    }
}

impl Scan {
    /// Before the walk.
    pub fn new() -> (s: Scan)
        ensures
            s@ == scan_start(),
    {
        let s = Scan { entries: Vec::new(), candidates: Vec::new() };
        assert(s@ =~= scan_start());
        s
    }

    /// Take in one item of the walk.
    pub fn add(&mut self, item: &Item) -> (r: Result<(), Error>)
        ensures
            match r {
                Ok(()) => scan_item(old(self)@, *item) == Ok::<ScanView, Fault>(final(self)@),
                Err(e) => {
                    &&& scan_item(old(self)@, *item) == Err::<ScanView, Fault>(e.fault)
                    &&& final(self)@ == old(self)@
                },
            },
    {
        if item.parts.len() == 0 {
            return Ok(());
        }
        let path = match to_archive_path(&item.parts) {
            Ok(path) => path,
            Err(e) => {
                return Err(e);
            },
        };
        match &item.what {
            What::Dir => {
                let e = Entry {
                    path,
                    kind: Kind::Dir,
                    mode: item.mode,
                    mtime: item.mtime,
                    mtime_nanos: item.mtime_nanos,
                    size: 0,
                    hash: None,
                    link_target: None,
                    segments: Vec::new(),
                };
                assert(e@ =~= dir_entry(path@, *item));
                let ghost v = e@;
                self.entries.push(e);
                assert(self@.entries =~= old(self)@.entries.push(v));
            },
            What::Symlink(target) => {
                let e = Entry {
                    path,
                    kind: Kind::Symlink,
                    mode: item.mode,
                    mtime: item.mtime,
                    mtime_nanos: item.mtime_nanos,
                    size: 0,
                    hash: None,
                    link_target: Some(target.clone()),
                    segments: Vec::new(),
                };
                assert(e@ =~= link_entry(path@, *item, target@));
                let ghost v = e@;
                self.entries.push(e);
                assert(self@.entries =~= old(self)@.entries.push(v));
            },
            What::File(size) => {
                let c = Candidate {
                    path,
                    mode: item.mode,
                    mtime: item.mtime,
                    mtime_nanos: item.mtime_nanos,
                    size: *size,
                };
                let ghost v = c@;
                self.candidates.push(c);
                assert(self@.candidates =~= old(self)@.candidates.push(v));
            },
            // Sockets, fifos and devices are skipped: they have no portable
            // meaning inside an archive.
            What::Other => {},
        }
        Ok(())
    }
}

proof fn lemma_walk_fault(s: ScanView, items: Seq<Item>, n: int)
    requires
        0 <= n <= items.len(),
        walked(s, items.take(n)) is Err,
    ensures
        walked(s, items) == walked(s, items.take(n)),
    decreases items.len() - n,
{
    if n < items.len() {
        assert(items.take(n + 1).drop_last() =~= items.take(n));
        lemma_walk_fault(s, items, n + 1);
    } else {
        assert(items.take(n) =~= items);
    }
}

proof fn lemma_walks_fault(inputs: Seq<Vec<Item>>, n: int)
    requires
        0 <= n <= inputs.len(),
        walked_all(inputs.take(n)) is Err,
    ensures
        walked_all(inputs) == walked_all(inputs.take(n)),
    decreases inputs.len() - n,
{
    if n < inputs.len() {
        assert(inputs.take(n + 1).drop_last() =~= inputs.take(n));
        lemma_walks_fault(inputs, n + 1);
    } else {
        assert(inputs.take(n) =~= inputs);
    }
}

/// Take in the walk through one input.
pub fn walk_input(scan: &mut Scan, items: &Vec<Item>) -> (r: Result<(), Error>)
    ensures
        match r {
            Ok(()) => walked(old(scan)@, items@) == Ok::<ScanView, Fault>(final(scan)@),
            Err(e) => {
                &&& walked(old(scan)@, items@) == Err::<ScanView, Fault>(e.fault)
                &&& exists|n: int|
                    {
                        &&& 0 <= n < items@.len()
                        &&& walked(old(scan)@, #[trigger] items@.take(n)) == Ok::<ScanView, Fault>(
                            final(scan)@,
                        )
                    }
            },
        },
{
    let mut i: usize = 0;
    while i < items.len()
        invariant
            i <= items@.len(),
            walked(old(scan)@, items@.take(i as int)) == Ok::<ScanView, Fault>(scan@),
        decreases items@.len() - i,
    {
        assert(items@.take(i + 1).drop_last() =~= items@.take(i as int));
        match scan.add(&items[i]) {
            Ok(()) => {},
            Err(e) => {
                proof {
                    lemma_walk_fault(old(scan)@, items@, i + 1);
                }
                return Err(e);
            },
        }
        i += 1;
    }
    assert(items@.take(i as int) =~= items@);
    Ok(())
}

/// A walk is refused for a path, and never for what comes after the walks.
proof fn lemma_walk_refusal(s: ScanView, items: Seq<Item>)
    ensures
        walked(s, items) matches Err(f) ==> f != Fault::Sink,
    decreases items.len(),
{
    if items.len() > 0 {
        lemma_walk_refusal(s, items.drop_last());
        let parts = items.last().parts@;
        if crate::paths::part_names(parts) is Some {
            let names = crate::paths::part_names(parts)->Some_0;
            crate::paths::lemma_parts_fault(
                crate::text::split(crate::text::join(names, '/'), '/'),
            );
        }
    }
}

proof fn lemma_walks_refusal(inputs: Seq<Vec<Item>>)
    ensures
        walked_all(inputs) matches Err(f) ==> f != Fault::Sink,
    decreases inputs.len(),
{
    if inputs.len() > 0 {
        lemma_walks_refusal(inputs.drop_last());
        if walked_all(inputs.drop_last()) is Ok {
            lemma_walk_refusal(walked_all(inputs.drop_last())->Ok_0, inputs.last()@);
        }
    }
}

/// Take in the walks through all inputs.
pub fn walk_inputs(inputs: &Vec<Vec<Item>>) -> (r: Result<Scan, Error>)
    ensures
        match r {
            Ok(scan) => walked_all(inputs@) == Ok::<ScanView, Fault>(scan@),
            Err(e) => walked_all(inputs@) == Err::<ScanView, Fault>(e.fault),
        },
{
    let mut scan = Scan::new();
    let mut i: usize = 0;
    while i < inputs.len()
        invariant
            i <= inputs@.len(),
            walked_all(inputs@.take(i as int)) == Ok::<ScanView, Fault>(scan@),
        decreases inputs@.len() - i,
    {
        assert(inputs@.take(i + 1).drop_last() =~= inputs@.take(i as int));
        match walk_input(&mut scan, &inputs[i]) {
            Ok(()) => {},
            Err(e) => {
                proof {
                    lemma_walks_fault(inputs@, i + 1);
                }
                return Err(e);
            },
        }
        i += 1;
    }
    assert(inputs@.take(i as int) =~= inputs@);
    Ok(scan)
}

proof fn lemma_total_bytes_take(cs: Seq<CandidateView>, n: int)
    requires
        0 <= n <= cs.len(),
    ensures
        total_bytes(cs.take(n)) <= total_bytes(cs),
    decreases cs.len() - n,
{
    if n < cs.len() {
        assert(cs.take(n + 1).drop_last() =~= cs.take(n));
        lemma_total_bytes_take(cs, n + 1);
    } else {
        assert(cs.take(n) =~= cs);
    }
}

/// What was read for one file after another.
pub open spec fn strung(parts: Seq<Seq<Read>>) -> Seq<Read>
    decreases parts.len(),
{
    if parts.len() == 0 {
        Seq::empty()
    } else {
        strung(parts.drop_last()) + parts.last()
    }
}

/// What was read for one file more.
pub proof fn lemma_strung(parts: Seq<Seq<Read>>, part: Seq<Read>)
    ensures
        strung(parts.push(part)) == strung(parts) + part,
{
    assert(parts.push(part).drop_last() =~= parts);
}

/// One of the parts is met with the bytes of `files` if all are.
proof fn lemma_part_supplied(files: Seq<Seq<u8>>, parts: Seq<Seq<Read>>, j: int)
    requires
        supplied(files, strung(parts)),
        0 <= j < parts.len(),
    ensures
        supplied(files, parts[j]),
    decreases parts.len(),
{
    let init = strung(parts.drop_last());
    lemma_supplied_parts(files, init, parts.last());
    if j + 1 < parts.len() {
        lemma_part_supplied(files, parts.drop_last(), j);
    }
}

/// Both of two parts are met with the bytes of `files` if the whole is.
proof fn lemma_supplied_parts(files: Seq<Seq<u8>>, a: Seq<Read>, b: Seq<Read>)
    requires
        supplied(files, a + b),
    ensures
        supplied(files, a),
        supplied(files, b),
{
    assert forall|i: int|
        0 <= i < a.len() && (#[trigger] a[i]).file < files.len() implies a[i].answer == Some(
        crate::stream::window(files[a[i].file as int], a[i].offset as int, a[i].len as int),
    ) by {
        assert((a + b)[i] == a[i]);
    }
    assert forall|i: int|
        0 <= i < b.len() && (#[trigger] b[i]).file < files.len() implies b[i].answer == Some(
        crate::stream::window(files[b[i].file as int], b[i].offset as int, b[i].len as int),
    ) by {
        assert((a + b)[a.len() + i] == b[i]);
    }
}

/// Every file was read from its start to its end, one after the other, and these are
/// the digests.
pub open spec fn are_hashed(parts: Seq<Seq<Read>>, hashes: Seq<Seq<u8>>) -> bool {
    &&& parts.len() == hashes.len()
    &&& forall|k: int|
        0 <= k < parts.len() ==> hashes_to(#[trigger] parts[k], k as usize, hashes[k])
}

/// Hashing `n` files, one after the other, came to a file that could not be read, or
/// that goes on where no file offset points. The parts are the files before it.
pub open spec fn stops_hashing(
    e: Error,
    n: nat,
    parts: Seq<Seq<Read>>,
    last: Seq<Read>,
    hashes: Seq<Seq<u8>>,
) -> bool {
    let k = parts.len() as usize;
    &&& parts.len() < n
    &&& are_hashed(parts, hashes)
    &&& {
        ||| e.fault == Fault::Unreadable && read_fails(last, k)
        ||| e.fault == Fault::TooLong && reads_past(last, k)
    }
}

/// Why hashing `n` files failed.
pub open spec fn is_hash_failure(e: Error, n: nat, log: Seq<Read>) -> bool {
    exists|parts: Seq<Seq<Read>>, last: Seq<Read>, hashes: Seq<Seq<u8>>| #[trigger]
        stops_hashing(e, n, parts, last, hashes) && log == strung(parts) + last
}

/// The files were hashed, and this is what was read for it.
pub open spec fn hashed_by(log: Seq<Read>, hashes: Seq<Seq<u8>>) -> bool {
    exists|parts: Seq<Seq<Read>>| #[trigger] are_hashed(parts, hashes) && log == strung(parts)
}

/// Where the requests were met from `files`, hashing them gives their digests.
pub proof fn law_hashes_are_digests(files: Seq<Seq<u8>>, log: Seq<Read>, hashes: Seq<Seq<u8>>)
    requires
        hashed_by(log, hashes),
        supplied(files, log),
        files.len() == hashes.len(),
        files.len() <= usize::MAX,
    ensures
        hashes == digests_of(files),
{
    let parts = choose|parts: Seq<Seq<Read>>| #[trigger]
        are_hashed(parts, hashes) && log == strung(parts);
    assert forall|k: int| 0 <= k < hashes.len() implies hashes[k] == digests_of(files)[k] by {
        assert(hashes_to(parts[k], k as usize, hashes[k]));
        lemma_part_supplied(files, parts, k);
        law_reads_as_supplied(files, parts[k], k as usize);
    }
    assert(hashes =~= digests_of(files));
}

/// Where the requests were met from `files`, hashing them fails only on a file that goes
/// on for ever.
pub proof fn law_hash_failure(files: Seq<Seq<u8>>, e: Error, log: Seq<Read>)
    requires
        is_hash_failure(e, files.len(), log),
        supplied(files, log),
        files.len() <= usize::MAX,
    ensures
        e.fault == Fault::TooLong,
        has_endless_file(files),
{
    let (parts, last, hashes) = choose|
        parts: Seq<Seq<Read>>,
        last: Seq<Read>,
        hashes: Seq<Seq<u8>>,
    | #[trigger]
        stops_hashing(e, files.len(), parts, last, hashes) && log == strung(parts) + last;
    lemma_supplied_parts(files, strung(parts), last);
    law_reads_as_supplied(files, last, parts.len() as usize);
    assert(files[parts.len() as int].len() > u64::MAX);
}

/// The digests of all files, and the sum of their sizes.
pub fn hash_all<R: Files>(candidates: &Vec<Candidate>, files: &mut R) -> (r: Result<
    (Vec<[u8; 32]>, u64),
    Error,
>)
    requires
        total_bytes(candidate_views(candidates@)) <= u64::MAX,
    ensures
        read_on(*old(files), *final(files)),
        match r {
            Ok((hashes, total)) => {
                &&& hashes@.len() == candidates@.len()
                &&& total == total_bytes(candidate_views(candidates@))
                &&& hashed_by(read_since(*old(files), *final(files)), hash_views(hashes@))
            },
            Err(e) => is_hash_failure(
                e,
                candidates@.len(),
                read_since(*old(files), *final(files)),
            ),
        },
{
    let mut hashes: Vec<[u8; 32]> = Vec::new();
    let mut total: u64 = 0;
    let mut i: usize = 0;
    let ghost views = candidate_views(candidates@);
    let ghost mut parts: Seq<Seq<Read>> = Seq::empty();
    proof {
        assert(views.take(0) =~= Seq::<CandidateView>::empty());
        lemma_nothing_read(*files);
    }
    while i < candidates.len()
        invariant
            views == candidate_views(candidates@),
            total_bytes(views) <= u64::MAX,
            i <= candidates@.len(),
            hashes@.len() == i,
            total == total_bytes(views.take(i as int)),
            read_on(*old(files), *files),
            read_since(*old(files), *files) == strung(parts),
            parts.len() == i,
            are_hashed(parts, hash_views(hashes@)),
        decreases candidates@.len() - i,
    {
        proof {
            lemma_total_bytes_take(views, i + 1);
            assert(views.take(i + 1).drop_last() =~= views.take(i as int));
        }
        let ghost mid = *files;
        let ghost keys = hash_views(hashes@);
        let hashed = hash_file(files, i);
        let ghost part = read_since(mid, *files);
        proof {
            lemma_read_on(*old(files), mid, *files);
            lemma_strung(parts, part);
        }
        match hashed {
            Ok(hash) => {
                hashes.push(hash);
                proof {
                    let more = parts.push(part);
                    assert forall|k: int| 0 <= k < more.len() implies hashes_to(
                        #[trigger] more[k],
                        k as usize,
                        hash_views(hashes@)[k],
                    ) by {
                        if k < i {
                            assert(more[k] == parts[k]);
                            assert(hash_views(hashes@)[k] == keys[k]);
                        }
                    }
                    parts = more;
                }
            },
            Err(e) => {
                assert(stops_hashing(e, candidates@.len(), parts, part, keys));
                return Err(e);
            },
        }
        total = total + candidates[i].size;
        i += 1;
    }
    assert(views.take(i as int) =~= views);
    Ok((hashes, total))
}

/// The bytes of some digests.
pub open spec fn hash_views(hashes: Seq<[u8; 32]>) -> Seq<Seq<u8>> {
    hashes.map_values(|h: [u8; 32]| h@)
}

/// The order in which the files are packed.
pub fn pack_order(candidates: &Vec<Candidate>) -> (order: Vec<usize>)
    ensures
        is_pack_order(candidate_views(candidates@), order@),
{
    let mut keys: Vec<PackKey> = Vec::new();
    let mut i: usize = 0;
    while i < candidates.len()
        invariant
            i <= candidates@.len(),
            keys@.len() == i,
            forall|k: int| 0 <= k < i ==> is_key_of(#[trigger] keys@[k], candidates@[k].path@),
        decreases candidates@.len() - i,
    {
        keys.push(PackKey::new(&candidates[i].path));
        i += 1;
    }
    let order = stable_order(&keys);
    proof {
        let views = candidate_views(candidates@);
        let le = |a: int, b: int| pack_le(views[a].path, views[b].path);
        assert forall|a: int, b: int|
            0 <= a < keys@.len() && 0 <= b < keys@.len() implies #[trigger] le(a, b)
            == keys@[a].leq(&keys@[b]) by {
            assert(is_key_of(keys@[a], candidates@[a].path@));
            assert(is_key_of(keys@[b], candidates@[b].path@));
        }
        lemma_order_by_keys(keys@, le, order@);
    }
    order
}

/// The rank of a kind in the index.
pub fn kind_rank(k: Kind) -> (r: u8)
    ensures
        r == rank(k),
{
    match k {
        Kind::Dir => 0,
        Kind::File => 1,
        Kind::Symlink => 2,
    }
}

/// The key by which the index lists an entry.
pub struct EntryKey {
    pub rank: u8,
    pub path: Vec<char>,
}

impl Key for EntryKey {
    open spec fn leq(&self, other: &Self) -> bool {
        if self.rank != other.rank {
            self.rank < other.rank
        } else {
            text_le(self.path@, other.path@)
        }
    }

    proof fn total(a: &Self, b: &Self) {
        lemma_text_total(a.path@, b.path@);
    }

    proof fn transitive(a: &Self, b: &Self, c: &Self) {
        if a.rank == b.rank && b.rank == c.rank {
            lemma_text_transitive(a.path@, b.path@, c.path@);
        }
    }

    fn no_greater(&self, other: &Self) -> (r: bool) {
        if self.rank != other.rank {
            self.rank < other.rank
        } else {
            no_later(&self.path, &other.path)
        }
    }
}

/// The entries in the order in which an index lists them.
pub fn list_entries(entries: &Vec<Entry>) -> (listed: Vec<Entry>)
    ensures
        is_listing(entry_views(entries@), entry_views(listed@)),
{
    let mut keys: Vec<EntryKey> = Vec::new();
    let mut i: usize = 0;
    while i < entries.len()
        invariant
            i <= entries@.len(),
            keys@.len() == i,
            forall|k: int|
                0 <= k < i ==> (#[trigger] keys@[k]).rank == rank(entries@[k].kind)
                    && keys@[k].path@ == entries@[k].path@,
        decreases entries@.len() - i,
    {
        keys.push(
            EntryKey { rank: kind_rank(entries[i].kind), path: chars_of(&entries[i].path) },
        );
        i += 1;
    }
    let order = stable_order(&keys);
    let ghost views = entry_views(entries@);
    proof {
        let le = |a: int, b: int| entry_le(views[a], views[b]);
        lemma_order_by_keys(keys@, le, order@);
        assert(is_index_order(views, order@));
    }
    let mut listed: Vec<Entry> = Vec::new();
    let mut j: usize = 0;
    while j < order.len()
        invariant
            j <= order@.len(),
            order@.len() == entries@.len(),
            is_index_order(views, order@),
            views == entry_views(entries@),
            listed@.len() == j,
            forall|k: int|
                0 <= k < j ==> (#[trigger] listed@[k])@ == views[order@[k] as int],
        decreases order@.len() - j,
    {
        assert(0 <= order@[j as int] < entries@.len());
        listed.push(entries[order[j]].clone());
        j += 1;
    }
    assert(entry_views(listed@) =~= in_order(views, order@));
    listed
}

/// The sizes of some files, by position.
pub open spec fn size_at(cs: Seq<CandidateView>) -> spec_fn(int) -> nat {
    |i: int| cs[i].size as nat
}

/// The sum of the sizes of some files is the sum over their positions.
pub proof fn lemma_total_bytes_sum(cs: Seq<CandidateView>, n: nat)
    requires
        n <= cs.len(),
    ensures
        total_bytes(cs.take(n as int)) == sum_below(size_at(cs), n),
    decreases n,
{
    if n > 0 {
        lemma_total_bytes_sum(cs, (n - 1) as nat);
        assert(cs.take(n as int).drop_last() =~= cs.take(n - 1));
    }
}

/// A fault while packing is a fault of packing everything.
proof fn lemma_pack_fault(
    cs: Seq<CandidateView>,
    hashes: Seq<Seq<u8>>,
    files: Seq<Seq<u8>>,
    order: Seq<usize>,
    opts: WriteOptions,
    n: nat,
    m: nat,
)
    requires
        n <= m,
        packed_upto(cs, hashes, files, order, opts, n) is Err,
    ensures
        packed_upto(cs, hashes, files, order, opts, m) == packed_upto(cs, hashes, files, order, opts, n),
    decreases m,
{
    if n < m {
        lemma_pack_fault(cs, hashes, files, order, opts, n, (m - 1) as nat);
    }
}

/// Packing the first files depends on no others.
proof fn lemma_pack_prefix(
    cs: Seq<CandidateView>,
    hashes: Seq<Seq<u8>>,
    a: Seq<Seq<u8>>,
    b: Seq<Seq<u8>>,
    order: Seq<usize>,
    opts: WriteOptions,
    n: nat,
)
    requires
        n <= order.len(),
        forall|i: int| 0 <= i < n ==> a[#[trigger] order[i] as int] == b[order[i] as int],
    ensures
        packed_upto(cs, hashes, a, order, opts, n) == packed_upto(cs, hashes, b, order, opts, n),
    decreases n,
{
    if n > 0 {
        lemma_pack_prefix(cs, hashes, a, b, order, opts, (n - 1) as nat);
        assert(a[order[n - 1] as int] == b[order[n - 1] as int]);
    }
}

/// A file packed before the one packed as number `j` has the same digest.
pub open spec fn is_known(hashes: Seq<Seq<u8>>, order: Seq<usize>, j: int) -> bool {
    exists|i: int| 0 <= i < j && hashes[#[trigger] order[i] as int] == hashes[order[j] as int]
}

/// What was read for the file packed as number `j`: nothing, if it was found empty, or
/// if a file packed before it stands for it; else the file, from its start to its end,
/// and it is what it was read as.
pub open spec fn is_as_read(
    part: Seq<Read>,
    candidates: Seq<CandidateView>,
    hashes: Seq<Seq<u8>>,
    files: Seq<Seq<u8>>,
    order: Seq<usize>,
    opts: WriteOptions,
    j: int,
) -> bool {
    let k = order[j];
    if candidates[k as int].size == 0 || (opts.dedup && is_known(hashes, order, j)) {
        part.len() == 0
    } else {
        reads_as(part, k, files[k as int])
    }
}

/// These parts were read for the first files in `order`, one after the other, and the
/// files are as they were read.
pub open spec fn are_as_read(
    parts: Seq<Seq<Read>>,
    candidates: Seq<CandidateView>,
    hashes: Seq<Seq<u8>>,
    files: Seq<Seq<u8>>,
    order: Seq<usize>,
    opts: WriteOptions,
) -> bool {
    forall|j: int|
        0 <= j < parts.len() ==> is_as_read(
            #[trigger] parts[j],
            candidates,
            hashes,
            files,
            order,
            opts,
            j,
        )
}

/// The pending block, if it holds anything, holds some of the files.
spec fn holds_files(v: PackView, candidates: Seq<CandidateView>, opts: WriteOptions) -> bool {
    v.buf.len() > 0 ==> exists|k: int|
        {
            &&& 0 <= k < candidates.len()
            &&& (#[trigger] candidates[k]).size > 0
            &&& chosen_lane(opts, candidates[k].path) == v.lane
        }
}

/// A digest is known only of a file that was packed.
pub proof fn lemma_seen(
    cs: Seq<CandidateView>,
    hashes: Seq<Seq<u8>>,
    files: Seq<Seq<u8>>,
    order: Seq<usize>,
    opts: WriteOptions,
    n: nat,
    h: Seq<u8>,
)
    requires
        packed_upto(cs, hashes, files, order, opts, n) matches Ok(p) && p.seen.contains_key(h),
    ensures
        exists|j: int| 0 <= j < n && hashes[#[trigger] order[j] as int] == h,
    decreases n,
{
    if n > 0 {
        let m = (n - 1) as nat;
        let p = packed_upto(cs, hashes, files, order, opts, m)->Ok_0;
        if p.seen.contains_key(h) {
            lemma_seen(cs, hashes, files, order, opts, m, h);
        } else {
            assert(hashes[order[m as int] as int] == h);
        }
    }
}

/// What is packed of the first files leaves a pending block of some of them.
proof fn lemma_holds_files(
    cs: Seq<CandidateView>,
    hashes: Seq<Seq<u8>>,
    files: Seq<Seq<u8>>,
    order: Seq<usize>,
    opts: WriteOptions,
    n: nat,
)
    requires
        is_pack_order(cs, order),
        n <= cs.len(),
    ensures
        packed_upto(cs, hashes, files, order, opts, n) matches Ok(p) ==> holds_files(
            p.packing,
            cs,
            opts,
        ),
    decreases n,
{
    if n > 0 {
        let m = (n - 1) as nat;
        lemma_holds_files(cs, hashes, files, order, opts, m);
        assert(0 <= order[m as int] < cs.len());
        let c = cs[order[m as int] as int];
        assert(c.size > 0 ==> chosen_lane(opts, c.path) == chosen_lane(opts, c.path));
    }
}

/// The files packed.
struct Packed {
    packer: Packer,
    seen: SeenFiles,
    entries: Vec<Entry>,
    deduped_files: u64,
    deduped_bytes: u64,
}

impl View for Packed {
    type V = PackedView;

    closed spec fn view(&self) -> PackedView {
        PackedView {
            packing: self.packer@,
            seen: self.seen@,
            entries: entry_views(self.entries@),
            deduped_files: self.deduped_files as nat,
            deduped_bytes: self.deduped_bytes as nat,
        }
    }
}

impl Packed {
    spec fn wf(self, out: Seq<u8>, opts: WriteOptions) -> bool {
        self.packer.wf(out) && self.packer.options() == opts && self.seen.wf()
    }

    /// Pack one more file, whose digest is known.
    fn next<R: Files, S: Sink>(
        &mut self,
        archive: &mut Output,
        c: &Candidate,
        hash: [u8; 32],
        k: usize,
        opts: &WriteOptions,
        files: &mut R,
        sink: &mut S,
    ) -> (r: Result<(), Error>)
        requires
            old(archive).wf(),
            old(self).wf(old(archive)@, *opts),
            old(self)@.deduped_files < u64::MAX,
            old(self)@.deduped_bytes + c.size <= u64::MAX,
        ensures
            final(archive).wf(),
            read_on(*old(files), *final(files)),
            passed_on(*old(sink), *final(sink), *old(archive), *final(archive)),
            (final(sink).failures() != old(sink).failures()) == (r matches Err(e) && e.fault
                == Fault::Sink),
            match r {
                Ok(()) => {
                    let log = read_since(*old(files), *final(files));
                    &&& final(self).wf(final(archive)@, *opts)
                    &&& if is_skipped(old(self)@, c@, hash@, *opts) {
                        log.len() == 0
                    } else {
                        reads_as(log, k, bytes_read(log))
                    }
                    &&& final(self)@.deduped_files <= old(self)@.deduped_files + 1
                    &&& final(self)@.deduped_bytes <= old(self)@.deduped_bytes + c.size
                    &&& pack_next(old(self)@, c@, hash@, bytes_read(log), *opts) == Ok::<
                        PackedView,
                        Fault,
                    >(final(self)@)
                },
                Err(e) => is_next_failure(
                    e,
                    final(archive)@,
                    old(self)@,
                    c@,
                    hash@,
                    *opts,
                    read_since(*old(files), *final(files)),
                    k,
                ),
            },
    {
        proof {
            lemma_nothing_read(*files);
            lemma_nothing_passed(*sink, *archive, *archive);
        }
        let mut known: Option<Vec<Segment>> = None;
        if opts.dedup {
            known = self.seen.get(&hash);
        }
        let segments = match known {
            Some(segments) => {
                self.deduped_files = self.deduped_files + 1;
                self.deduped_bytes = self.deduped_bytes + c.size;
                segments
            },
            None => {
                let lane = if opts.fast_lane {
                    lane_for(&c.path)
                } else {
                    Lane::Compress
                };
                let segments = match self.packer.add(archive, c.size, lane, files, k, sink) {
                    Ok(segments) => segments,
                    Err(e) => {
                        return Err(e);
                    },
                };
                if opts.dedup {
                    self.seen.insert(hash, copy_segments(&segments));
                }
                segments
            },
        };
        let e = Entry {
            path: c.path.clone(),
            kind: Kind::File,
            mode: c.mode,
            mtime: c.mtime,
            mtime_nanos: c.mtime_nanos,
            size: c.size,
            hash: Some(hash),
            link_target: None,
            segments,
        };
        let ghost v = e@;
        self.entries.push(e);
        proof {
            assert(v =~= file_entry(c@, hash@, v.segments));
            assert(entry_views(self.entries@) =~= entry_views(old(self).entries@).push(v));
        }
        Ok(())
    }
}

/// A file is not read to be packed: it was found empty, or its digest is known.
pub open spec fn is_skipped(
    p: PackedView,
    c: CandidateView,
    hash: Seq<u8>,
    opts: WriteOptions,
) -> bool {
    c.size == 0 || (opts.dedup && p.seen.contains_key(hash))
}

/// Why the next file could not be packed: it could not be read, or goes on for ever; it
/// reads as something else than was announced, or blocks have run out; the pending block
/// has to be sealed for it and cannot be written; or it has a block of its own that cannot
/// be written.
pub open spec fn is_next_failure(
    e: Error,
    out: Seq<u8>,
    p: PackedView,
    c: CandidateView,
    hash: Seq<u8>,
    opts: WriteOptions,
    log: Seq<Read>,
    k: usize,
) -> bool {
    let v = p.packing;
    let lane = chosen_lane(opts, c.path);
    let large = c.size >= opts.block_size;
    &&& !is_skipped(p, c, hash, opts)
    &&& {
        ||| e.fault == Fault::Source && read_fails(log, k)
        ||| e.fault == Fault::TooLong && reads_past(log, k)
        ||| reads_as(log, k, bytes_read(log)) && pack_next(p, c, hash, bytes_read(log), opts)
            == Err::<PackedView, Fault>(e.fault)
        ||| {
            &&& 0 < v.buf.len() <= opts.block_size
            &&& is_write_fault(e, out, v.buf, v.lane, opts)
            &&& if large {
                log.len() == 0
            } else {
                reads_as(log, k, bytes_read(log))
            }
        }
        ||| large && e.fault == Fault::Encoder && is_reading(log, k) && block_refused(
            bytes_read(log),
            lane,
            opts,
        )
        ||| large && e.fault == Fault::TooLong && is_reading(log, k) && makes_too_much(
            bytes_read(log),
            lane,
            opts,
            out,
        )
        ||| large && e.fault == Fault::Sink && is_reading(log, k)
    }
}

/// Packing stopped once these parts were read and packed, and `last` was read: handing on
/// what was made of them failed; or the next file could not be packed; or there is no other
/// file, and the last block could not be written.
pub open spec fn stops_packing(
    e: Error,
    data: Seq<u8>,
    candidates: Seq<CandidateView>,
    hashes: Seq<Seq<u8>>,
    opts: WriteOptions,
    files: Seq<Seq<u8>>,
    order: Seq<usize>,
    parts: Seq<Seq<Read>>,
    last: Seq<Read>,
) -> bool {
    let n = parts.len();
    &&& n <= candidates.len()
    &&& is_pack_order(candidates, order)
    &&& are_as_read(parts, candidates, hashes, files, order, opts)
    &&& packed_upto(candidates, hashes, files, order, opts, n) matches Ok(p) && {
        ||| e.fault == Fault::Sink && last.len() == 0
        ||| n < candidates.len() && is_next_failure(
            e,
            data,
            p,
            candidates[order[n as int] as int],
            hashes[order[n as int] as int],
            opts,
            last,
            order[n as int],
        )
        ||| {
            &&& n == candidates.len()
            &&& last.len() == 0
            &&& 0 < p.packing.buf.len() <= opts.block_size
            &&& is_write_fault(e, data, p.packing.buf, p.packing.lane, opts)
        }
    }
}

/// Why packing failed, by what was read for it.
pub open spec fn is_packing_failure(
    e: Error,
    data: Seq<u8>,
    candidates: Seq<CandidateView>,
    hashes: Seq<Seq<u8>>,
    opts: WriteOptions,
    log: Seq<Read>,
) -> bool {
    exists|files: Seq<Seq<u8>>, order: Seq<usize>, parts: Seq<Seq<Read>>, last: Seq<Read>|
        #[trigger] stops_packing(
            e,
            data,
            candidates,
            hashes,
            opts,
            files,
            order,
            parts,
            last,
        ) && log == strung(parts) + last
}

/// Pack all files in `order`, handing finished blocks on as they come. Gives also what
/// each file was read as, and what was read for each.
fn pack_all<R: Files, S: Sink>(
    archive: &mut Output,
    candidates: &Vec<Candidate>,
    hashes: &Vec<[u8; 32]>,
    order: &Vec<usize>,
    opts: &WriteOptions,
    files: &mut R,
    sink: &mut S,
) -> (r: Result<(Packed, Ghost<(Seq<Seq<u8>>, Seq<Seq<Read>>)>), Error>)
    requires
        old(archive).wf(),
        old(archive)@ == header_bytes(),
        hashes@.len() == candidates@.len(),
        is_pack_order(candidate_views(candidates@), order@),
        total_bytes(candidate_views(candidates@)) <= u64::MAX,
    ensures
        final(archive).wf(),
        read_on(*old(files), *final(files)),
        passed_on(*old(sink), *final(sink), *old(archive), *final(archive)),
        (final(sink).failures() != old(sink).failures()) == (r matches Err(e) && e.fault
            == Fault::Sink),
        match r {
            Ok((p, got)) => {
                &&& p.wf(final(archive)@, *opts)
                &&& final(archive).pending() == Seq::<u8>::empty()
                &&& got@.0.len() == candidates@.len()
                &&& got@.1.len() == candidates@.len()
                &&& read_since(*old(files), *final(files)) == strung(got@.1)
                &&& are_as_read(
                    got@.1,
                    candidate_views(candidates@),
                    hash_views(hashes@),
                    got@.0,
                    order@,
                    *opts,
                )
                &&& is_sealed(
                    packed_upto(
                        candidate_views(candidates@),
                        hash_views(hashes@),
                        got@.0,
                        order@,
                        *opts,
                        candidates@.len(),
                    ),
                    p@,
                )
            },
            Err(e) => is_packing_failure(
                e,
                final(archive)@,
                candidate_views(candidates@),
                hash_views(hashes@),
                *opts,
                read_since(*old(files), *final(files)),
            ),
        },
{
    let ghost views = candidate_views(candidates@);
    let ghost keys = hash_views(hashes@);
    let ghost mut got: Seq<Seq<u8>> = Seq::new(candidates@.len(), |i: int| Seq::<u8>::empty());
    let ghost mut parts: Seq<Seq<Read>> = Seq::empty();
    let mut p = Packed {
        packer: Packer::new(opts),
        seen: SeenFiles::new(),
        entries: Vec::new(),
        deduped_files: 0,
        deduped_bytes: 0,
    };
    proof {
        assert(p@ =~= packed_start());
        assert(order@.take(0) =~= Seq::<usize>::empty());
        lemma_order_distinct(
            views.len(),
            |a: int, b: int| pack_le(views[a].path, views[b].path),
            order@,
        );
        lemma_nothing_read(*files);
        lemma_nothing_passed(*sink, *archive, *archive);
    }
    let mut i: usize = 0;
    while i < order.len()
        invariant
            archive.wf(),
            read_on(*old(files), *files),
            read_since(*old(files), *files) == strung(parts),
            parts.len() == i,
            are_as_read(parts, views, keys, got, order@, *opts),
            passed_on(*old(sink), *sink, *old(archive), *archive),
            sink.failures() == old(sink).failures(),
            views == candidate_views(candidates@),
            keys == hash_views(hashes@),
            order@.len() == candidates@.len() == hashes@.len() == got.len(),
            is_pack_order(views, order@),
            order@.no_duplicates(),
            total_bytes(views) <= u64::MAX,
            i <= order@.len(),
            p.wf(archive@, *opts),
            p@.deduped_files <= i,
            p@.deduped_bytes <= sum_at(size_at(views), order@.take(i as int)),
            packed_upto(views, keys, got, order@, *opts, i as nat) == Ok::<PackedView, Fault>(p@),
        decreases order@.len() - i,
    {
        assert(0 <= order@[i as int] < views.len());
        let k: usize = order[i];
        proof {
            let upto = order@.take(i + 1);
            assert(upto.drop_last() =~= order@.take(i as int));
            assert forall|j: int| 0 <= j < upto.len() implies #[trigger] upto[j] < views.len() by {
                assert(order@[j] < views.len());
            }
            assert forall|a: int, b: int|
                0 <= a < upto.len() && 0 <= b < upto.len() && a != b implies upto[a] != upto[b] by {
                assert(order@[a] != order@[b]);
            }
            lemma_sum_at(size_at(views), views.len(), upto);
            lemma_total_bytes_sum(views, views.len());
            assert(views.take(views.len() as int) =~= views);
            assert(views[k as int] == candidates@[k as int]@);
            assert(keys[k as int] == hashes@[k as int]@);
        }
        let ghost before = p@;
        let ghost (r1, k1, o1) = (*files, *sink, *archive);
        let step = p.next(archive, &candidates[k], hashes[k], k, opts, files, sink);
        let ghost part = read_since(r1, *files);
        proof {
            lemma_read_on(*old(files), r1, *files);
            lemma_strung(parts, part);
            lemma_passed_on(*old(sink), k1, *sink, *old(archive), o1, *archive);
        }
        match step {
            Ok(()) => {
                proof {
                    let now = got.update(k as int, bytes_read(part));
                    assert forall|j: int| 0 <= j < i implies got[#[trigger] order@[j] as int]
                        == now[order@[j] as int] by {
                        assert(order@[j] != order@[i as int]);
                        assert(0 <= order@[j] < views.len());
                    }
                    lemma_pack_prefix(views, keys, got, now, order@, *opts, i as nat);
                    lemma_next_as_read(
                        parts,
                        part,
                        views,
                        keys,
                        got,
                        now,
                        order@,
                        *opts,
                        before,
                    );
                    got = now;
                    parts = parts.push(part);
                }
            },
            Err(e) => {
                assert(stops_packing(e, archive@, views, keys, *opts, got, order@, parts, part));
                return Err(e);
            },
        }
        let ghost (k2, o2) = (*sink, *archive);
        let drained = archive.drain(sink);
        proof {
            lemma_passed_on(*old(sink), k2, *sink, *old(archive), o2, *archive);
            assert(strung(parts) + Seq::<Read>::empty() =~= strung(parts));
        }
        match drained {
            Ok(()) => {},
            Err(e) => {
                assert(stops_packing(
                    e,
                    archive@,
                    views,
                    keys,
                    *opts,
                    got,
                    order@,
                    parts,
                    Seq::empty(),
                ));
                return Err(e);
            },
        }
        i += 1;
    }
    let ghost o1 = *archive;
    proof {
        assert(strung(parts) + Seq::<Read>::empty() =~= strung(parts));
    }
    match p.packer.flush(archive) {
        Ok(()) => {},
        Err(e) => {
            proof {
                lemma_nothing_passed(*sink, o1, *archive);
                lemma_passed_on(*old(sink), *sink, *sink, *old(archive), o1, *archive);
                assert(stops_packing(
                    e,
                    archive@,
                    views,
                    keys,
                    *opts,
                    got,
                    order@,
                    parts,
                    Seq::empty(),
                ));
            }
            return Err(e);
        },
    }
    let ghost (k2, o2) = (*sink, *archive);
    proof {
        lemma_nothing_passed(*sink, o1, o2);
        lemma_passed_on(*old(sink), *sink, *sink, *old(archive), o1, o2);
    }
    let drained = archive.drain(sink);
    proof {
        lemma_passed_on(*old(sink), k2, *sink, *old(archive), o2, *archive);
    }
    match drained {
        Ok(()) => {},
        Err(e) => {
            assert(stops_packing(
                e,
                archive@,
                views,
                keys,
                *opts,
                got,
                order@,
                parts,
                Seq::empty(),
            ));
            return Err(e);
        },
    }
    Ok((p, Ghost((got, parts))))
}

/// The next file read is as it was read.
proof fn lemma_next_as_read(
    parts: Seq<Seq<Read>>,
    part: Seq<Read>,
    cs: Seq<CandidateView>,
    hashes: Seq<Seq<u8>>,
    files: Seq<Seq<u8>>,
    now: Seq<Seq<u8>>,
    order: Seq<usize>,
    opts: WriteOptions,
    p: PackedView,
)
    requires
        is_pack_order(cs, order),
        order.no_duplicates(),
        order.len() == cs.len() == hashes.len() == files.len(),
        parts.len() < order.len(),
        are_as_read(parts, cs, hashes, files, order, opts),
        packed_upto(cs, hashes, files, order, opts, parts.len()) == Ok::<PackedView, Fault>(p),
        ({
            let k = order[parts.len() as int];
            &&& now == files.update(k as int, bytes_read(part))
            &&& if is_skipped(p, cs[k as int], hashes[k as int], opts) {
                part.len() == 0
            } else {
                reads_as(part, k, bytes_read(part))
            }
        }),
    ensures
        are_as_read(parts.push(part), cs, hashes, now, order, opts),
{
    let n = parts.len() as int;
    let k = order[n] as int;
    assert(0 <= order[n] < cs.len());
    if opts.dedup {
        crate::laws::lemma_dedup(cs, hashes, files, order, opts, parts.len());
    }
    let more = parts.push(part);
    assert forall|j: int| 0 <= j < more.len() implies is_as_read(
        #[trigger] more[j],
        cs,
        hashes,
        now,
        order,
        opts,
        j,
    ) by {
        if j < n {
            assert(order[j] != order[n]);
            assert(0 <= order[j] < cs.len());
            assert(more[j] == parts[j]);
            assert(now[order[j] as int] == files[order[j] as int]);
        } else if opts.dedup {
            if is_known(hashes, order, n) {
                let i = choose|i: int|
                    0 <= i < n && hashes[#[trigger] order[i] as int] == hashes[order[n] as int];
                assert(p.seen.contains_key(hashes[order[i] as int]));
            }
            if p.seen.contains_key(hashes[k]) {
                lemma_seen(cs, hashes, files, order, opts, parts.len(), hashes[k]);
                assert(is_known(hashes, order, n));
            }
        }
    }
}

/// An encoder is called, and can fail, only where a file is compressed.
pub proof fn law_encoder_is_needed(
    e: Error,
    data: Seq<u8>,
    cs: Seq<CandidateView>,
    hashes: Seq<Seq<u8>>,
    opts: WriteOptions,
    log: Seq<Read>,
)
    requires
        is_packing_failure(e, data, cs, hashes, opts, log),
        e.fault == Fault::Encoder,
    ensures
        needs_encoder(cs, opts),
{
    let (files, order, parts, last) = choose|
        files: Seq<Seq<u8>>,
        order: Seq<usize>,
        parts: Seq<Seq<Read>>,
        last: Seq<Read>,
    | #[trigger]
        stops_packing(e, data, cs, hashes, opts, files, order, parts, last) && log == strung(parts)
            + last;
    let n = parts.len();
    lemma_holds_files(cs, hashes, files, order, opts, n);
    lemma_stop_fault(cs, hashes, files, order, opts, n);
    let p = packed_upto(cs, hashes, files, order, opts, n)->Ok_0;
    let v = p.packing;
    if v.buf.len() > 0 && block_refused(v.buf, v.lane, opts) {
        let k = choose|k: int|
            {
                &&& 0 <= k < cs.len()
                &&& (#[trigger] cs[k]).size > 0
                &&& chosen_lane(opts, cs[k].path) == v.lane
            };
        assert(cs[k].size > 0);
    } else {
        let k = order[n as int] as int;
        assert(0 <= order[n as int] < cs.len());
        assert(cs[k].size > 0);
        lemma_next_fault(p, cs[k], hashes[k], bytes_read(last), opts);
    }
}

/// Packing a file fails only where it is not as announced, or blocks run out.
proof fn lemma_next_fault(
    p: PackedView,
    c: CandidateView,
    hash: Seq<u8>,
    data: Seq<u8>,
    opts: WriteOptions,
)
    ensures
        pack_next(p, c, hash, data, opts) matches Err(f) ==> f is ShortBlock || f is SizeChanged
            || f == Fault::TooManyBlocks,
{
}

/// Where the requests were met from `files`, what was made of the files as they were read
/// is what is made of `files`.
pub proof fn law_packs_what_was_read(
    parts: Seq<Seq<Read>>,
    cs: Seq<CandidateView>,
    hashes: Seq<Seq<u8>>,
    got: Seq<Seq<u8>>,
    files: Seq<Seq<u8>>,
    order: Seq<usize>,
    opts: WriteOptions,
    n: nat,
)
    requires
        supplied(files, strung(parts)),
        files.len() == cs.len(),
        is_pack_order(cs, order),
        n <= parts.len() <= cs.len(),
        are_as_read(parts, cs, hashes, got, order, opts),
    ensures
        packed_upto(cs, hashes, got, order, opts, n) == packed_upto(
            cs,
            hashes,
            files,
            order,
            opts,
            n,
        ),
    decreases n,
{
    if n > 0 {
        let m = (n - 1) as nat;
        law_packs_what_was_read(parts, cs, hashes, got, files, order, opts, m);
        let before = packed_upto(cs, hashes, got, order, opts, m);
        assert(0 <= order[m as int] < cs.len());
        let k = order[m as int];
        assert(is_as_read(parts[m as int], cs, hashes, got, order, opts, m as int));
        if before is Ok {
            if cs[k as int].size == 0 {
            } else if opts.dedup && is_known(hashes, order, m as int) {
                crate::laws::lemma_dedup(cs, hashes, got, order, opts, m);
                let i = choose|i: int|
                    0 <= i < m && hashes[#[trigger] order[i] as int] == hashes[order[m as int] as int];
                assert(before->Ok_0.seen.contains_key(hashes[order[i] as int]));
            } else {
                lemma_part_supplied(files, parts, m as int);
                law_reads_as_supplied(files, parts[m as int], k);
            }
        }
    }
}

/// Why packing failed, where the requests were met from `files`: a codec or the sink
/// failed, a file goes on for ever, the archive would be too long, or the files are not as
/// announced.
pub proof fn law_packing_failure(
    e: Error,
    data: Seq<u8>,
    scan: ScanView,
    hashes: Seq<Seq<u8>>,
    opts: WriteOptions,
    log: Seq<Read>,
    files: Seq<Seq<u8>>,
)
    requires
        is_packing_failure(e, data, scan.candidates, hashes, opts, log),
        supplied(files, log),
        files.len() == scan.candidates.len(),
    ensures
        ({
            ||| e.fault == Fault::Encoder && (crate::plan::some_block_refused(opts)
                || crate::plan::some_stream_refused(files, scan.candidates, opts))
            ||| e.fault == Fault::TooLong && (has_endless_file(files) || is_outgrown(
                data,
                scan,
                files,
                opts,
            ))
            ||| e.fault == Fault::Sink
            ||| packs_to(scan, hashes, files, opts, Err(e.fault))
        }),
{
    let cs = scan.candidates;
    let (got, order, parts, last) = choose|
        got: Seq<Seq<u8>>,
        order: Seq<usize>,
        parts: Seq<Seq<Read>>,
        last: Seq<Read>,
    | #[trigger]
        stops_packing(e, data, cs, hashes, opts, got, order, parts, last) && log == strung(parts)
            + last;
    let n = parts.len();
    lemma_supplied_parts(files, strung(parts), last);
    law_packs_what_was_read(parts, cs, hashes, got, files, order, opts, n);
    let p = packed_upto(cs, hashes, got, order, opts, n)->Ok_0;
    let v = p.packing;
    if v.buf.len() > 0 && v.buf.len() <= opts.block_size && is_write_fault(
        e,
        data,
        v.buf,
        v.lane,
        opts,
    ) {
        if e.fault == Fault::Encoder {
            assert(block_refused(v.buf, v.lane, opts));
        } else {
            assert(crate::pack::outgrows(data, v.buf, v.lane, opts));
        }
    } else if e.fault != Fault::Sink {
        let k = order[n as int];
        assert(0 <= order[n as int] < cs.len());
        let file = files[k as int];
        law_reads_as_supplied(files, last, k);
        if e.fault == Fault::TooLong && reads_past(last, k) {
            assert(file.len() > u64::MAX);
        } else if reads_as(last, k, bytes_read(last)) {
            assert(file.take(file.len() as int) =~= file);
            if pack_next(p, cs[k as int], hashes[k as int], bytes_read(last), opts) == Err::<
                PackedView,
                Fault,
            >(e.fault) {
                assert(packed_upto(cs, hashes, files, order, opts, n + 1) == Err::<
                    PackedView,
                    Fault,
                >(e.fault));
                lemma_pack_fault(cs, hashes, files, order, opts, n + 1, cs.len());
            } else if e.fault == Fault::Encoder {
                assert(block_refused(
                    file.take(file.len() as int),
                    chosen_lane(opts, cs[k as int].path),
                    opts,
                ));
            } else {
                assert(makes_too_much(
                    file.take(file.len() as int),
                    chosen_lane(opts, cs[k as int].path),
                    opts,
                    data,
                ));
            }
        } else if reads_begin(last, k) {
            lemma_pieces_supplied(files, last, k);
            let m = bytes_read(last).len() as int;
            if e.fault == Fault::Encoder {
                assert(block_refused(
                    file.take(m),
                    chosen_lane(opts, cs[k as int].path),
                    opts,
                ));
            } else {
                assert(makes_too_much(
                    file.take(m),
                    chosen_lane(opts, cs[k as int].path),
                    opts,
                    data,
                ));
            }
        }
    }
}

/// Packing stops only where a file is not as announced, or blocks run out.
proof fn lemma_stop_fault(
    cs: Seq<CandidateView>,
    hashes: Seq<Seq<u8>>,
    files: Seq<Seq<u8>>,
    order: Seq<usize>,
    opts: WriteOptions,
    n: nat,
)
    ensures
        packed_upto(cs, hashes, files, order, opts, n) matches Err(f) ==> f is ShortBlock
            || f is SizeChanged || f == Fault::TooManyBlocks,
    decreases n,
{
    if n > 0 {
        lemma_stop_fault(cs, hashes, files, order, opts, (n - 1) as nat);
    }
}

/// `p` is what packing came to, with the last block sealed.
spec fn is_sealed(packed: Result<PackedView, Fault>, p: PackedView) -> bool {
    packed matches Ok(v) && p == (PackedView { packing: sealed_up(v.packing), ..v })
}

/// How many entries are of a kind.
pub fn count_entries(entries: &Vec<Entry>, kind: Kind) -> (n: u64)
    ensures
        n == count_kind(entry_views(entries@), kind),
{
    let mut n: u64 = 0;
    let mut i: usize = 0;
    let len: usize = entries.len();
    let ghost views = entry_views(entries@);
    assert(views.take(0) =~= Seq::<EntryView>::empty());
    while i < len
        invariant
            i <= len == entries@.len(),
            views == entry_views(entries@),
            n == count_kind(views.take(i as int), kind),
            n <= i,
        decreases len - i,
    {
        assert(views.take(i + 1).drop_last() =~= views.take(i as int));
        assert(views.take(i + 1).last() == entries@[i as int]@);
        if entries[i].kind == kind {
            n = n + 1;
        }
        i += 1;
    }
    assert(views.take(i as int) =~= views);
    n
}

/// The counts that belong to an archive.
pub open spec fn are_stats_of(
    stats: WriteStats,
    data: Seq<u8>,
    ix: IndexView,
    scan: ScanView,
    p: PackedView,
) -> bool {
    &&& stats.files == scan.candidates.len()
    &&& stats.dirs == count_kind(scan.entries, Kind::Dir)
    &&& stats.symlinks == count_kind(scan.entries, Kind::Symlink)
    &&& stats.input_bytes == total_bytes(scan.candidates)
    &&& stats.deduped_bytes == p.deduped_bytes
    &&& stats.deduped_files == p.deduped_files
    &&& stats.blocks == ix.blocks.len()
    &&& stats.archive_bytes == data.len()
}

/// `data` is the archive of what the walk found, with these counts. `hashes` are
/// the digests that the files had when they were hashed, `files` what they were
/// read as when they were packed.
pub open spec fn is_created(
    data: Seq<u8>,
    stats: WriteStats,
    scan: ScanView,
    hashes: Seq<Seq<u8>>,
    files: Seq<Seq<u8>>,
    opts: WriteOptions,
) -> bool {
    exists|ix: IndexView, p: PackedView|
        {
            &&& packs_to(scan, hashes, files, opts, Ok(p))
            &&& #[trigger] is_archive_of(data, ix, scan, p, opts)
            &&& are_stats_of(stats, data, ix, scan, p)
        }
}

/// What was read to create an archive: every file to be hashed, and then the files that
/// had to be packed, in the order of packing. A file may have been read as other bytes to
/// be packed than to be hashed.
pub open spec fn is_read_for(
    log: Seq<Read>,
    hashes: Seq<Seq<u8>>,
    files: Seq<Seq<u8>>,
    order: Seq<usize>,
    first: Seq<Read>,
    parts: Seq<Seq<Read>>,
    candidates: Seq<CandidateView>,
    opts: WriteOptions,
) -> bool {
    let n = candidates.len();
    &&& log == first + strung(parts)
    &&& hashes.len() == n
    &&& hashed_by(first, hashes)
    &&& files.len() == n
    &&& parts.len() == n
    &&& is_pack_order(candidates, order)
    &&& are_as_read(parts, candidates, hashes, files, order, opts)
}

/// `data` is the archive of what the walk found, with these counts, made of what was read.
pub open spec fn is_created_from(
    log: Seq<Read>,
    data: Seq<u8>,
    stats: WriteStats,
    scan: ScanView,
    opts: WriteOptions,
) -> bool {
    exists|
        hashes: Seq<Seq<u8>>,
        files: Seq<Seq<u8>>,
        order: Seq<usize>,
        first: Seq<Read>,
        parts: Seq<Seq<Read>>,
    | #[trigger]
        is_read_for(log, hashes, files, order, first, parts, scan.candidates, opts) && is_created(
            data,
            stats,
            scan,
            hashes,
            files,
            opts,
        )
}

/// Creating an archive failed while its files were packed.
pub open spec fn fails_packing(
    e: Error,
    data: Seq<u8>,
    scan: ScanView,
    opts: WriteOptions,
    log: Seq<Read>,
) -> bool {
    exists|hashes: Seq<Seq<u8>>, first: Seq<Read>, rest: Seq<Read>|
        {
            &&& hashes.len() == scan.candidates.len()
            &&& #[trigger] hashed_by(first, hashes)
            &&& #[trigger] is_packing_failure(e, data, scan.candidates, hashes, opts, rest)
            &&& log == first + rest
        }
}

/// Creating an archive failed once its files were packed: the index or the footer has no
/// place in it, or the sink failed.
pub open spec fn fails_finishing(
    e: Error,
    data: Seq<u8>,
    scan: ScanView,
    opts: WriteOptions,
    log: Seq<Read>,
) -> bool {
    exists|
        hashes: Seq<Seq<u8>>,
        files: Seq<Seq<u8>>,
        order: Seq<usize>,
        first: Seq<Read>,
        parts: Seq<Seq<Read>>,
    | #[trigger]
        is_read_for(log, hashes, files, order, first, parts, scan.candidates, opts) && {
            ||| e.fault == Fault::TooLong && index_outgrows(data, scan, opts)
            ||| e.fault == Fault::Sink
        }
}

/// What is told while an archive is created, in this order.
pub open spec fn phases() -> Seq<Seq<char>> {
    seq!["scanning"@, "hashing"@, "packing"@, "writing index"@]
}

/// Four things are told of while an archive is created: that it is being scanned for, that
/// files are hashed, that they are packed, and that the index is written.
pub proof fn law_phases()
    ensures
        phases().len() == 4,
        phases()[0] == "scanning"@,
        phases()[1] == "hashing"@,
        phases()[2] == "packing"@,
        phases()[3] == "writing index"@,
{
}

/// Why creating an archive failed once the walk was accepted, by the phase that was told
/// of last: a file could not be read to be hashed, and nothing was written; or packing
/// failed; or finishing did.
pub open spec fn is_creation_failure(
    e: Error,
    data: Seq<u8>,
    scan: ScanView,
    opts: WriteOptions,
    log: Seq<Read>,
    told: Seq<Seq<char>>,
) -> bool {
    ||| {
        &&& told == phases().take(2)
        &&& data.len() == 0
        &&& is_hash_failure(e, scan.candidates.len(), log)
    }
    ||| told == phases().take(3) && fails_packing(e, data, scan, opts, log)
    ||| told == phases() && fails_finishing(e, data, scan, opts, log)
}

/// Where the requests were met from `files`, the archive is made of `files`.
pub proof fn law_created_from_files(
    log: Seq<Read>,
    data: Seq<u8>,
    stats: WriteStats,
    scan: ScanView,
    opts: WriteOptions,
    files: Seq<Seq<u8>>,
)
    requires
        is_created_from(log, data, stats, scan, opts),
        supplied(files, log),
        files.len() == scan.candidates.len(),
        files.len() <= usize::MAX,
    ensures
        is_created(data, stats, scan, digests_of(files), files, opts),
{
    let cs = scan.candidates;
    let (hashes, got, order, first, parts) = choose|
        hashes: Seq<Seq<u8>>,
        got: Seq<Seq<u8>>,
        order: Seq<usize>,
        first: Seq<Read>,
        parts: Seq<Seq<Read>>,
    | #[trigger]
        is_read_for(log, hashes, got, order, first, parts, cs, opts) && is_created(
            data,
            stats,
            scan,
            hashes,
            got,
            opts,
        );
    lemma_supplied_parts(files, first, strung(parts));
    law_hashes_are_digests(files, first, hashes);
    law_packs_what_was_read(parts, cs, hashes, got, files, order, opts, cs.len());
    let (ix, p) = choose|ix: IndexView, p: PackedView|
        {
            &&& packs_to(scan, hashes, got, opts, Ok(p))
            &&& #[trigger] is_archive_of(data, ix, scan, p, opts)
            &&& are_stats_of(stats, data, ix, scan, p)
        };
    let other = choose|other: Seq<usize>|
        {
            &&& #[trigger] is_pack_order(cs, other)
            &&& packed_upto(cs, hashes, got, other, opts, cs.len()) == Ok::<PackedView, Fault>(p)
        };
    crate::order::law_order_unique(
        cs.len(),
        |a: int, b: int| pack_le(cs[a].path, cs[b].path),
        order,
        other,
    );
    assert(is_pack_order(cs, order));
    assert(packs_to(scan, digests_of(files), files, opts, Ok(p)));
    assert(is_archive_of(data, ix, scan, p, opts));
}

/// Why creating an archive failed, where the requests were met from `files`: a codec or the
/// sink failed, a file goes on for ever, the archive would be too long, or the files are not
/// as announced.
pub proof fn law_creation_failure(
    e: Error,
    data: Seq<u8>,
    scan: ScanView,
    opts: WriteOptions,
    log: Seq<Read>,
    told: Seq<Seq<char>>,
    files: Seq<Seq<u8>>,
)
    requires
        is_creation_failure(e, data, scan, opts, log, told),
        supplied(files, log),
        files.len() == scan.candidates.len(),
        files.len() <= usize::MAX,
    ensures
        ({
            ||| e.fault == Fault::Encoder && (crate::plan::some_block_refused(opts)
                || crate::plan::some_stream_refused(files, scan.candidates, opts))
            ||| e.fault == Fault::TooLong && (has_endless_file(files) || is_outgrown(
                data,
                scan,
                files,
                opts,
            ))
            ||| e.fault == Fault::Sink
            ||| packs_to(scan, digests_of(files), files, opts, Err(e.fault))
        }),
{
    if is_hash_failure(e, scan.candidates.len(), log) {
        law_hash_failure(files, e, log);
    } else if fails_packing(e, data, scan, opts, log) {
        let (hashes, first, rest) = choose|
            hashes: Seq<Seq<u8>>,
            first: Seq<Read>,
            rest: Seq<Read>,
        |
            {
                &&& hashes.len() == scan.candidates.len()
                &&& #[trigger] hashed_by(first, hashes)
                &&& #[trigger] is_packing_failure(e, data, scan.candidates, hashes, opts, rest)
                &&& log == first + rest
            };
        lemma_supplied_parts(files, first, rest);
        law_hashes_are_digests(files, first, hashes);
        law_packing_failure(e, data, scan, hashes, opts, rest, files);
    }
}

/// Create an archive: walk, hash, sort, pack. `inputs` are the walks through the
/// input paths, `files` gives the bytes of the files found on them, numbered in
/// the order of the walks, and `sink` takes the archive's bytes as they come.
pub fn create<R: Files, S: Sink, P: Progress>(
    archive: &mut Output,
    inputs: &Vec<Vec<Item>>,
    opts: &WriteOptions,
    files: &mut R,
    sink: &mut S,
    progress: &mut P,
) -> (r: Result<WriteStats, Error>)
    requires
        old(archive).wf(),
        old(archive)@.len() == 0,
        walked_all(inputs@) matches Ok(scan) ==> total_bytes(scan.candidates) <= u64::MAX,
    ensures
        final(archive).wf(),
        read_on(*old(files), *final(files)),
        old(progress).told().is_prefix_of(final(progress).told()),
        passed_on(*old(sink), *final(sink), *old(archive), *final(archive)),
        (final(sink).failures() != old(sink).failures()) == (r matches Err(e) && e.fault
            == Fault::Sink),
        final(archive)@.len() == 0 ==> final(sink).taken() == old(sink).taken(),
        r is Ok ==> {
            &&& final(archive).pending() == Seq::<u8>::empty()
            &&& final(sink).taken() == old(sink).taken() + final(archive)@
            &&& final(progress).told() == old(progress).told() + phases()
        },
        inputs@.len() == 0 ==> {
            &&& r matches Err(e) && e.fault == Fault::NoInputs
            &&& *final(archive) == *old(archive)
            &&& *final(files) == *old(files)
            &&& *final(sink) == *old(sink)
            &&& *final(progress) == *old(progress)
        },
        inputs@.len() > 0 ==> match walked_all(inputs@) {
            Err(f) => {
                &&& r matches Err(e) && e.fault == f
                &&& *final(archive) == *old(archive)
                &&& *final(files) == *old(files)
                &&& *final(sink) == *old(sink)
                &&& final(progress).told() == old(progress).told().push("scanning"@)
            },
            Ok(scan) => {
                &&& match r {
                    Ok(stats) => is_created_from(
                        read_since(*old(files), *final(files)),
                        final(archive)@,
                        stats,
                        scan,
                        *opts,
                    ),
                    Err(e) => is_creation_failure(
                        e,
                        final(archive)@,
                        scan,
                        *opts,
                        read_since(*old(files), *final(files)),
                        since(final(progress).told(), old(progress).told().len()),
                    ),
                }
                &&& forall|held: Seq<Seq<u8>>| #[trigger]
                    old(files).hold(held) && held.len() == scan.candidates.len() ==> match r {
                        Ok(stats) => is_created(
                            final(archive)@,
                            stats,
                            scan,
                            digests_of(held),
                            held,
                            *opts,
                        ),
                        Err(e) => {
                            ||| e.fault == Fault::Encoder
                            ||| e.fault == Fault::TooLong && (has_endless_file(held)
                                || is_outgrown(final(archive)@, scan, held, *opts))
                            ||| e.fault == Fault::Sink
                            ||| packs_to(scan, digests_of(held), held, *opts, Err(e.fault))
                        },
                    }
            },
        },
{
    proof {
        lemma_nothing_read(*files);
        lemma_nothing_passed(*sink, *archive, *archive);
        assert(archive.handed_on() =~= Seq::<u8>::empty());
    }
    if inputs.len() == 0 {
        return Err(Error::new(Fault::NoInputs));
    }
    progress.tell("scanning");
    proof {
        lemma_walks_refusal(inputs@);
    }
    let mut scan = match walk_inputs(inputs) {
        Ok(scan) => scan,
        Err(e) => {
            return Err(e);
        },
    };
    let ghost found = scan@;
    // Also the point where unreadable files surface, before anything is
    // written to the output.
    progress.tell("hashing");
    let hashed = hash_all(&scan.candidates, files);
    let ghost r1 = *files;
    let ghost first = read_since(*old(files), r1);
    let (hashes, input_bytes) = match hashed {
        Ok(done) => done,
        Err(e) => {
            proof {
                assert(since(progress.told(), old(progress).told().len()) =~= phases().take(2));
                lemma_failure_for_held(
                    *old(files),
                    *files,
                    e,
                    archive@,
                    found,
                    *opts,
                    since(progress.told(), old(progress).told().len()),
                );
            }
            return Err(e);
        },
    };
    let order = pack_order(&scan.candidates);

    progress.tell("packing");
    proof {
        assert(since(progress.told(), old(progress).told().len()) =~= phases().take(3));
    }
    match write_header(archive) {
        Ok(()) => {},
        Err(e) => {
            return Err(e);
        },
    }
    assert(archive@ =~= header_bytes());
    let ghost keys = hash_views(hashes@);
    assert(archive.handed_on() =~= Seq::<u8>::empty());
    let ghost o1 = *archive;
    proof {
        lemma_nothing_passed(*sink, *old(archive), o1);
    }
    let all_packed = pack_all(archive, &scan.candidates, &hashes, &order, opts, files, sink);
    let ghost log = read_since(*old(files), *files);
    proof {
        lemma_read_on(*old(files), r1, *files);
        lemma_passed_on(*old(sink), *old(sink), *sink, *old(archive), o1, *archive);
    }
    let (p, got) = match all_packed {
        Ok(done) => done,
        Err(e) => {
            proof {
                assert(hashed_by(first, keys));
                assert(fails_packing(e, archive@, found, *opts, log));
                lemma_failure_for_held(
                    *old(files),
                    *files,
                    e,
                    archive@,
                    found,
                    *opts,
                    since(progress.told(), old(progress).told().len()),
                );
            }
            return Err(e);
        },
    };
    let ghost body = archive@;
    let ghost packed = p@;
    let ghost parts = got@.1;
    let ghost read_as = got@.0;
    proof {
        assert(is_pack_order(found.candidates, order@));
        assert(is_read_for(log, keys, read_as, order@, first, parts, found.candidates, *opts));
    }
    let count_files: u64 = scan.candidates.len() as u64;
    let dirs = count_entries(&scan.entries, Kind::Dir);
    let symlinks = count_entries(&scan.entries, Kind::Symlink);
    let ghost sealed = p.packer@.sealed;
    let ghost blocks = p.packer.listed();
    let Packed { packer, seen, mut entries, deduped_files, deduped_bytes } = p;
    let ghost file_views = entry_views(entries@);
    let mut all: Vec<Entry> = Vec::new();
    all.append(&mut scan.entries);
    all.append(&mut entries);
    assert(entry_views(all@) =~= found.entries + file_views);

    // Entries are stored in extraction-friendly order: directories first, so
    // that creating them is a single forward pass.
    let listed = list_entries(&all);
    let mut created_by = "embr ".to_owned();
    created_by.append(crate::VERSION);
    let index = Index { blocks: packer.into_blocks(), entries: listed, created_by };
    let count: u64 = index.blocks.len() as u64;
    proof {
        let v = packed_upto(
            found.candidates,
            keys,
            read_as,
            order@,
            *opts,
            found.candidates.len(),
        )->Ok_0;
        assert(packs_to(found, keys, read_as, *opts, Ok(v)));
        assert(indexes(index@, body, found, *opts));
    }

    progress.tell("writing index");
    proof {
        assert(since(progress.told(), old(progress).told().len()) =~= phases());
        assert(progress.told() =~= old(progress).told() + phases());
    }
    let ghost o2 = *archive;
    let footer = match index.write(archive) {
        Ok(footer) => footer,
        Err(e) => {
            proof {
                lemma_nothing_passed(*sink, o2, *archive);
                lemma_passed_on(*old(sink), *sink, *sink, *old(archive), o2, *archive);
                assert(fails_finishing(e, archive@, found, *opts, log));
                lemma_failure_for_held(
                    *old(files),
                    *files,
                    e,
                    archive@,
                    found,
                    *opts,
                    since(progress.told(), old(progress).told().len()),
                );
            }
            return Err(e);
        },
    };
    let ghost mid = archive@;
    match footer.write(archive) {
        Ok(()) => {},
        Err(e) => {
            proof {
                lemma_nothing_passed(*sink, o2, *archive);
                lemma_passed_on(*old(sink), *sink, *sink, *old(archive), o2, *archive);
                assert(fails_finishing(e, archive@, found, *opts, log));
                lemma_failure_for_held(
                    *old(files),
                    *files,
                    e,
                    archive@,
                    found,
                    *opts,
                    since(progress.told(), old(progress).told().len()),
                );
            }
            return Err(e);
        },
    }
    let archive_bytes = archive.position();
    let ghost (k3, o3) = (*sink, *archive);
    proof {
        lemma_nothing_passed(*sink, o2, o3);
        lemma_passed_on(*old(sink), *sink, *sink, *old(archive), o2, o3);
    }
    let drained = archive.drain(sink);
    proof {
        lemma_passed_on(*old(sink), k3, *sink, *old(archive), o3, *archive);
    }
    match drained {
        Ok(()) => {},
        Err(e) => {
            proof {
                assert(fails_finishing(e, archive@, found, *opts, log));
                lemma_failure_for_held(
                    *old(files),
                    *files,
                    e,
                    archive@,
                    found,
                    *opts,
                    since(progress.told(), old(progress).told().len()),
                );
            }
            return Err(e);
        },
    }
    let stats = WriteStats {
        files: count_files,
        dirs,
        symlinks,
        input_bytes,
        deduped_bytes,
        deduped_files,
        blocks: count,
        archive_bytes,
    };
    proof {
        let data = archive@;
        let ix = index@;
        let end = end_of(blocks, blocks.len() as int);
        assert(mid.take(body.len() as int) =~= body);
        assert(data.take(end) =~= body);
        assert(data =~= body + data.skip(end));
        lemma_stored_stays(body, data.skip(end), blocks, sealed, *opts);
        assert(is_finished(data, end, ix));
        let v = packed_upto(
            found.candidates,
            keys,
            read_as,
            order@,
            *opts,
            found.candidates.len(),
        )->Ok_0;
        assert(packs_to(found, keys, read_as, *opts, Ok(v)));
        assert(is_archive_of(data, ix, found, v, *opts));
        assert(is_created(data, stats, found, keys, read_as, *opts));
        assert(is_read_for(log, keys, read_as, order@, first, parts, found.candidates, *opts));
        assert(is_created_from(log, data, stats, found, *opts));
        assert forall|held: Seq<Seq<u8>>| #[trigger]
            old(files).hold(held) && held.len() == found.candidates.len() implies is_created(
            data,
            stats,
            found,
            digests_of(held),
            held,
            *opts,
        ) by {
            law_created_from_files(log, data, stats, found, *opts, held);
        }
        assert(archive@ =~= archive.handed_on());
        assert(since(archive.handed_on(), 0) =~= archive@);
    }
    Ok(stats)
}

/// Why creating an archive failed, of any files that are held.
proof fn lemma_failure_for_held<R: Files>(
    before: R,
    after: R,
    e: Error,
    data: Seq<u8>,
    scan: ScanView,
    opts: WriteOptions,
    told: Seq<Seq<char>>,
)
    requires
        read_on(before, after),
        is_creation_failure(e, data, scan, opts, read_since(before, after), told),
        scan.candidates.len() <= usize::MAX,
    ensures
        forall|held: Seq<Seq<u8>>| #[trigger]
            before.hold(held) && held.len() == scan.candidates.len() ==> {
                ||| e.fault == Fault::Encoder
                ||| e.fault == Fault::TooLong && (has_endless_file(held) || is_outgrown(
                    data,
                    scan,
                    held,
                    opts,
                ))
                ||| e.fault == Fault::Sink
                ||| packs_to(scan, digests_of(held), held, opts, Err(e.fault))
            },
{
    assert forall|held: Seq<Seq<u8>>| #[trigger]
        before.hold(held) && held.len() == scan.candidates.len() implies {
        ||| e.fault == Fault::Encoder
        ||| e.fault == Fault::TooLong && (has_endless_file(held) || is_outgrown(
            data,
            scan,
            held,
            opts,
        ))
        ||| e.fault == Fault::Sink
        ||| packs_to(scan, digests_of(held), held, opts, Err(e.fault))
    } by {
        law_creation_failure(e, data, scan, opts, read_since(before, after), told, held);
    }
}

} // verus!
