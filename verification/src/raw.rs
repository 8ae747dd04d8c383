//! The serialized form of the index: bincode on plain tuples.
//!
//! bincode writes a struct as its fields in order, and an enum without payload
//! as the number of its variant, so an index and the tuples below have the same
//! bytes.

use vstd::prelude::*;

use crate::error::{Error, Fault};
use crate::index::{
    copy_text, entry_views, BlockInfo, Entry, EntryView, Index, IndexView, Kind, Segment,
};

verus! {

/// A block: offset, stored length, decoded length, codec id.
pub type RawBlock = (u64, u64, u64, u8);

/// A segment: block, offset, length.
pub type RawSegment = (u32, u64, u64);

/// An entry: path, kind, mode; mtime, its nanoseconds, size; hash, link target,
/// segments.
pub type RawEntry = (
    (String, u32, u32),
    (i64, u32, u64),
    (Option<[u8; 32]>, Option<String>, Vec<RawSegment>),
);

/// An index: blocks, entries, provenance.
pub type RawIndex = (Vec<RawBlock>, Vec<RawEntry>, String);

/// What a [`RawEntry`] says.
pub type RawEntryView = (
    (Seq<char>, u32, u32),
    (i64, u32, u64),
    (Option<Seq<u8>>, Option<Seq<char>>, Seq<RawSegment>),
);

/// What a [`RawIndex`] says.
pub type RawIndexView = (Seq<RawBlock>, Seq<RawEntryView>, Seq<char>);

/// The bytes that `bincode::serialize` gives for an index.
pub uninterp spec fn bincode_bytes(raw: RawIndexView) -> Seq<u8>;

/// The index that `bincode::deserialize` finds in some bytes; `None` if it
/// fails.
pub uninterp spec fn bincode_value(bytes: Seq<u8>) -> Option<RawIndexView>;

/// `bincode::serialize`: the bytes of an index, from which
/// `bincode::deserialize` gives the index back. It does not fail on these
/// types: there is no size limit, a vector has a known length, and writing to
/// memory succeeds.
#[verifier::external_body]
fn bincode_serialize(raw: &RawIndex) -> (r: Result<Vec<u8>, Box<bincode::ErrorKind>>)
    ensures
        r is Ok,
        r matches Ok(bytes) ==> bytes@ == bincode_bytes(raw.deep_view()),
        r matches Ok(bytes) ==> bincode_value(bytes@) == Some(raw.deep_view()),
{
    bincode::serialize(raw)
}

/// `bincode::deserialize`: the index that the bytes hold, or an error, as a
/// function of the bytes.
#[verifier::external_body]
fn bincode_deserialize(bytes: &[u8]) -> (r: Result<RawIndex, Box<bincode::ErrorKind>>)
    ensures
        match r {
            Ok(raw) => bincode_value(bytes@) == Some(raw.deep_view()),
            Err(_) => bincode_value(bytes@) is None,
        },
{
    bincode::deserialize(bytes)
}

/// The number of a kind.
pub open spec fn kind_number(kind: Kind) -> u32 {
    match kind {
        Kind::File => 0,
        Kind::Dir => 1,
        Kind::Symlink => 2,
    }
}

/// The kind with this number, if there is one.
pub open spec fn kind_of(n: u32) -> Option<Kind> {
    if n == 0 {
        Some(Kind::File)
    } else if n == 1 {
        Some(Kind::Dir)
    } else if n == 2 {
        Some(Kind::Symlink)
    } else {
        None
    }
}

/// A block as a tuple.
pub open spec fn raw_block(b: BlockInfo) -> RawBlock {
    (b.offset, b.clen, b.rlen, b.codec)
}

/// The block that a tuple stands for.
pub open spec fn block_of(r: RawBlock) -> BlockInfo {
    BlockInfo { offset: r.0, clen: r.1, rlen: r.2, codec: r.3 }
}

/// A segment as a tuple.
pub open spec fn raw_segment(s: Segment) -> RawSegment {
    (s.block, s.offset, s.len)
}

/// The segment that a tuple stands for.
pub open spec fn segment_of(r: RawSegment) -> Segment {
    Segment { block: r.0, offset: r.1, len: r.2 }
}

/// An entry as tuples.
pub open spec fn raw_entry(e: EntryView) -> RawEntryView {
    (
        (e.path, kind_number(e.kind), e.mode),
        (e.mtime, e.mtime_nanos, e.size),
        (e.hash, e.link_target, e.segments.map_values(|s: Segment| raw_segment(s))),
    )
}

/// The entry that tuples stand for, if their kind is one.
pub open spec fn entry_of(r: RawEntryView) -> Option<EntryView> {
    match kind_of(r.0.1) {
        None => None,
        Some(kind) => Some(
            EntryView {
                path: r.0.0,
                kind,
                mode: r.0.2,
                mtime: r.1.0,
                mtime_nanos: r.1.1,
                size: r.1.2,
                hash: r.2.0,
                link_target: r.2.1,
                segments: r.2.2.map_values(|s: RawSegment| segment_of(s)),
            },
        ),
    }
}

/// The entries that tuples stand for, if all their kinds are kinds.
pub open spec fn entries_of(rs: Seq<RawEntryView>) -> Option<Seq<EntryView>>
    decreases rs.len(),
{
    if rs.len() == 0 {
        Some(Seq::empty())
    } else {
        match (entries_of(rs.drop_last()), entry_of(rs.last())) {
            (Some(init), Some(e)) => Some(init.push(e)),
            _ => None,
        }
    }
}

/// An index as tuples.
pub open spec fn raw_index(ix: IndexView) -> RawIndexView {
    (
        ix.blocks.map_values(|b: BlockInfo| raw_block(b)),
        ix.entries.map_values(|e: EntryView| raw_entry(e)),
        ix.created_by,
    )
}

/// The index that tuples stand for, if they are one.
pub open spec fn index_of(r: RawIndexView) -> Option<IndexView> {
    match entries_of(r.1) {
        None => None,
        Some(entries) => Some(
            IndexView {
                blocks: r.0.map_values(|b: RawBlock| block_of(b)),
                entries,
                created_by: r.2,
            },
        ),
    }
}

/// The bytes of an index before compression.
pub open spec fn index_bytes(ix: IndexView) -> Seq<u8> {
    bincode_bytes(raw_index(ix))
}

/// The index that some bytes hold, if they are one.
pub open spec fn index_value(bytes: Seq<u8>) -> Option<IndexView> {
    match bincode_value(bytes) {
        None => None,
        Some(r) => index_of(r),
    }
}

proof fn lemma_entry_round_trip(e: EntryView)
    ensures
        entry_of(raw_entry(e)) == Some(e),
{
    let r = raw_entry(e);
    assert(r.2.2.map_values(|s: RawSegment| segment_of(s)) =~= e.segments);
}

proof fn lemma_entries_round_trip(es: Seq<EntryView>)
    ensures
        entries_of(es.map_values(|e: EntryView| raw_entry(e))) == Some(es),
    decreases es.len(),
{
    let rs = es.map_values(|e: EntryView| raw_entry(e));
    if es.len() > 0 {
        lemma_entries_round_trip(es.drop_last());
        lemma_entry_round_trip(es.last());
        assert(rs.drop_last() =~= es.drop_last().map_values(|e: EntryView| raw_entry(e)));
        assert(es.drop_last().push(es.last()) =~= es);
    } else {
        assert(es =~= Seq::<EntryView>::empty());
    }
}

/// Every index is found again in its tuples.
pub proof fn law_tuples_round_trip(ix: IndexView)
    ensures
        index_of(raw_index(ix)) == Some(ix),
{
    lemma_entries_round_trip(ix.entries);
    assert(raw_index(ix).0.map_values(|b: RawBlock| block_of(b)) =~= ix.blocks);
}

/// What stands where in the tuples of an index: of a block its offset, its stored length,
/// its decoded length and its codec; of an entry its path, its kind (a file is 0, a
/// directory 1, a symlink 2), its mode, its time, its size, its digest, its target and its
/// segments; of a segment its block, its offset and its length. There is one tuple for each.
pub proof fn law_tuple_layout(ix: IndexView)
    ensures
        raw_index(ix).0.len() == ix.blocks.len(),
        raw_index(ix).1.len() == ix.entries.len(),
        raw_index(ix).2 == ix.created_by,
        forall|b: int|
            0 <= b < ix.blocks.len() ==> {
                let r = #[trigger] raw_index(ix).0[b];
                &&& r.0 == ix.blocks[b].offset
                &&& r.1 == ix.blocks[b].clen
                &&& r.2 == ix.blocks[b].rlen
                &&& r.3 == ix.blocks[b].codec
            },
        forall|k: int|
            0 <= k < ix.entries.len() ==> {
                let r = #[trigger] raw_index(ix).1[k];
                let e = ix.entries[k];
                &&& r.0.0 == e.path
                &&& e.kind == Kind::File ==> r.0.1 == 0
                &&& e.kind == Kind::Dir ==> r.0.1 == 1
                &&& e.kind == Kind::Symlink ==> r.0.1 == 2
                &&& r.0.2 == e.mode
                &&& r.1.0 == e.mtime
                &&& r.1.1 == e.mtime_nanos
                &&& r.1.2 == e.size
                &&& r.2.0 == e.hash
                &&& r.2.1 == e.link_target
                &&& are_tuples_of(r.2.2, e.segments)
            },
{
    assert forall|k: int| 0 <= k < ix.entries.len() implies are_tuples_of(
        #[trigger] raw_index(ix).1[k].2.2,
        ix.entries[k].segments,
    ) by {}
}

/// The tuples of some segments.
pub open spec fn are_tuples_of(rs: Seq<RawSegment>, segments: Seq<Segment>) -> bool {
    &&& rs.len() == segments.len()
    &&& forall|i: int|
        0 <= i < segments.len() ==> {
            &&& (#[trigger] rs[i]).0 == segments[i].block
            &&& rs[i].1 == segments[i].offset
            &&& rs[i].2 == segments[i].len
        }
}

/// Bytes hold an index exactly if they hold its tuples: those that stand for it, with no
/// number as a kind that is not one.
pub proof fn law_index_from_tuples(bytes: Seq<u8>, ix: IndexView)
    ensures
        index_value(bytes) == Some(ix) <==> bincode_value(bytes) == Some(raw_index(ix)),
{
    law_tuples_round_trip(ix);
    if index_value(bytes) == Some(ix) {
        lemma_tuples_of_index(bincode_value(bytes)->0, ix);
    }
}

proof fn lemma_tuples_of_entries(rs: Seq<RawEntryView>, es: Seq<EntryView>)
    requires
        entries_of(rs) == Some(es),
    ensures
        rs == es.map_values(|e: EntryView| raw_entry(e)),
    decreases rs.len(),
{
    if rs.len() > 0 {
        let init = entries_of(rs.drop_last())->0;
        let e = entry_of(rs.last())->0;
        lemma_tuples_of_entries(rs.drop_last(), init);
        assert(es.drop_last() =~= init);
        let r = rs.last();
        assert(raw_entry(e).2.2 =~= r.2.2);
        assert(raw_entry(e) == r);
        assert(rs =~= es.map_values(|e: EntryView| raw_entry(e))) by {
            assert forall|i: int| 0 <= i < rs.len() implies rs[i] == #[trigger] raw_entry(es[i]) by {
                if i < rs.len() - 1 {
                    assert(rs.drop_last()[i] == rs[i]);
                    assert(es[i] == init[i]);
                }
            }
        }
    } else {
        assert(rs =~= es.map_values(|e: EntryView| raw_entry(e)));
    }
}

proof fn lemma_tuples_of_index(r: RawIndexView, ix: IndexView)
    requires
        index_of(r) == Some(ix),
    ensures
        r == raw_index(ix),
{
    lemma_tuples_of_entries(r.1, ix.entries);
    assert(raw_index(ix).0 =~= r.0);
}

proof fn lemma_bad_entry(rs: Seq<RawEntryView>, n: int)
    requires
        0 <= n <= rs.len(),
        entries_of(rs.take(n)) is None,
    ensures
        entries_of(rs) is None,
    decreases rs.len() - n,
{
    if n < rs.len() {
        assert(rs.take(n + 1).drop_last() =~= rs.take(n));
        lemma_bad_entry(rs, n + 1);
    } else {
        assert(rs.take(n) =~= rs);
    }
}

fn kind_to_number(kind: Kind) -> (n: u32)
    ensures
        n == kind_number(kind),
{
    match kind {
        Kind::File => 0,
        Kind::Dir => 1,
        Kind::Symlink => 2,
    }
}

fn kind_from_number(n: u32) -> (r: Option<Kind>)
    ensures
        r == kind_of(n),
{
    if n == 0 {
        Some(Kind::File)
    } else if n == 1 {
        Some(Kind::Dir)
    } else if n == 2 {
        Some(Kind::Symlink)
    } else {
        None
    }
}

fn segments_to_raw(segments: &Vec<Segment>) -> (r: Vec<RawSegment>)
    ensures
        r.deep_view() == segments@.map_values(|s: Segment| raw_segment(s)),
{
    let mut r: Vec<RawSegment> = Vec::new();
    let mut i: usize = 0;
    while i < segments.len()
        invariant
            i <= segments@.len(),
            r@.len() == i,
            forall|k: int| 0 <= k < i ==> r@[k] == raw_segment(segments@[k]),
        decreases segments@.len() - i,
    {
        let s = segments[i];
        r.push((s.block, s.offset, s.len));
        i += 1;
    }
    assert(r.deep_view() =~= segments@.map_values(|s: Segment| raw_segment(s)));
    r
}

fn segments_from_raw(raw: &Vec<RawSegment>) -> (r: Vec<Segment>)
    ensures
        r@ == raw.deep_view().map_values(|s: RawSegment| segment_of(s)),
{
    let mut r: Vec<Segment> = Vec::new();
    let mut i: usize = 0;
    while i < raw.len()
        invariant
            i <= raw@.len(),
            r@.len() == i,
            forall|k: int| 0 <= k < i ==> r@[k] == segment_of(raw@[k]),
        decreases raw@.len() - i,
    {
        let s = raw[i];
        r.push(Segment { block: s.0, offset: s.1, len: s.2 });
        i += 1;
    }
    assert(r@ =~= raw.deep_view().map_values(|s: RawSegment| segment_of(s)));
    r
}

fn entry_to_raw(e: &Entry) -> (r: RawEntry)
    ensures
        r.deep_view() == raw_entry(e@),
{
    let r = (
        (e.path.clone(), kind_to_number(e.kind), e.mode),
        (e.mtime, e.mtime_nanos, e.size),
        (e.hash, copy_text(&e.link_target), segments_to_raw(&e.segments)),
    );
    proof {
        if let Some(h) = e.hash {
            assert(h.deep_view() =~= h@);
        }
    }
    r
}

fn entry_from_raw(r: &RawEntry) -> (e: Option<Entry>)
    ensures
        match e {
            Some(e) => entry_of(r.deep_view()) == Some(e@),
            None => entry_of(r.deep_view()) is None,
        },
{
    proof {
        if let Some(h) = r.2.0 {
            assert(h.deep_view() =~= h@);
        }
    }
    match kind_from_number(r.0.1) {
        None => None,
        Some(kind) => Some(
            Entry {
                path: r.0.0.clone(),
                kind,
                mode: r.0.2,
                mtime: r.1.0,
                mtime_nanos: r.1.1,
                size: r.1.2,
                hash: r.2.0,
                link_target: copy_text(&r.2.1),
                segments: segments_from_raw(&r.2.2),
            },
        ),
    }
}

/// An index as tuples.
pub fn index_to_raw(ix: &Index) -> (r: RawIndex)
    ensures
        r.deep_view() == raw_index(ix@),
{
    let mut blocks: Vec<RawBlock> = Vec::new();
    let mut i: usize = 0;
    while i < ix.blocks.len()
        invariant
            i <= ix.blocks@.len(),
            blocks@.len() == i,
            forall|k: int| 0 <= k < i ==> blocks@[k] == raw_block(ix.blocks@[k]),
        decreases ix.blocks@.len() - i,
    {
        let b = ix.blocks[i];
        blocks.push((b.offset, b.clen, b.rlen, b.codec));
        i += 1;
    }
    let mut entries: Vec<RawEntry> = Vec::new();
    let mut j: usize = 0;
    while j < ix.entries.len()
        invariant
            j <= ix.entries@.len(),
            entries@.len() == j,
            forall|k: int|
                0 <= k < j ==> (#[trigger] entries@[k]).deep_view() == raw_entry(ix.entries@[k]@),
        decreases ix.entries@.len() - j,
    {
        entries.push(entry_to_raw(&ix.entries[j]));
        j += 1;
    }
    let r = (blocks, entries, ix.created_by.clone());
    assert(r.deep_view().0 =~= raw_index(ix@).0);
    assert(r.deep_view().1 =~= raw_index(ix@).1);
    r
}

/// The index that tuples stand for, if they are one.
pub fn index_from_raw(r: &RawIndex) -> (ix: Option<Index>)
    ensures
        match ix {
            Some(ix) => index_of(r.deep_view()) == Some(ix@),
            None => index_of(r.deep_view()) is None,
        },
{
    let mut blocks: Vec<BlockInfo> = Vec::new();
    let mut i: usize = 0;
    while i < r.0.len()
        invariant
            i <= r.0@.len(),
            blocks@.len() == i,
            forall|k: int| 0 <= k < i ==> blocks@[k] == block_of(r.0@[k]),
        decreases r.0@.len() - i,
    {
        let b = r.0[i];
        blocks.push(BlockInfo { offset: b.0, clen: b.1, rlen: b.2, codec: b.3 });
        i += 1;
    }
    let mut entries: Vec<Entry> = Vec::new();
    let mut j: usize = 0;
    let ghost rs = r.1.deep_view();
    assert(rs.take(0) =~= Seq::<RawEntryView>::empty());
    assert(entry_views(entries@) =~= Seq::<EntryView>::empty());
    while j < r.1.len()
        invariant
            rs == r.1.deep_view(),
            j <= r.1@.len(),
            entries_of(rs.take(j as int)) == Some(entry_views(entries@)),
        decreases r.1@.len() - j,
    {
        assert(rs.take(j + 1).drop_last() =~= rs.take(j as int));
        assert(rs.take(j + 1).last() == r.1@[j as int].deep_view());
        let ghost before = entries@;
        match entry_from_raw(&r.1[j]) {
            Some(e) => {
                entries.push(e);
                assert(entry_views(entries@) =~= entry_views(before).push(e@));
            },
            None => {
                proof {
                    lemma_bad_entry(rs, j + 1);
                }
                return None;
            },
        }
        j += 1;
    }
    assert(rs.take(j as int) =~= rs);
    let ix = Index { blocks, entries, created_by: r.2.clone() };
    assert(ix@.blocks =~= r.deep_view().0.map_values(|b: RawBlock| block_of(b)));
    Some(ix)
}

/// The bytes of an index before compression. Reading them gives the index back.
pub fn serialize_index(ix: &Index) -> (r: Result<Vec<u8>, Error>)
    ensures
        r matches Ok(bytes) && bytes@ == index_bytes(ix@) && index_value(bytes@) == Some(ix@),
{
    let raw = index_to_raw(ix);
    proof {
        law_tuples_round_trip(ix@);
    }
    match bincode_serialize(&raw) {
        Ok(bytes) => Ok(bytes),
        Err(e) => Err(Error::bincode(Fault::Encoder, e)),
    }
}

/// The index that some bytes hold.
pub fn deserialize_index(bytes: &[u8]) -> (r: Result<Index, Error>)
    ensures
        match r {
            Ok(ix) => index_value(bytes@) == Some(ix@),
            Err(e) => index_value(bytes@) is None && e.fault == Fault::IndexLayout,
        },
{
    match bincode_deserialize(bytes) {
        Ok(raw) => match index_from_raw(&raw) {
            Some(ix) => Ok(ix),
            None => Err(Error::new(Fault::IndexLayout)),
        },
        Err(e) => Err(Error::bincode(Fault::IndexLayout, e)),
    }
}

} // verus!
