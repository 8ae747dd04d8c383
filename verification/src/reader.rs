//! Archive reading, listing and extraction.
//!
//! Extraction walks entries in block order and keeps one decoded block cached.
//! Because the writer laid files down sorted, files that share a block are
//! adjacent here too, so a full extract decodes each block exactly once while
//! extracting a single file decodes exactly the blocks that file touches.
//!
//! The archive's bytes come from a [`Source`], and what was asked of it is part of
//! every contract.

use vstd::prelude::*;

use crate::codec::{codec_of, decode_block, Codec};
use crate::contents::{block_contents, contents, segment_of_block};
use crate::digest::{blake3_of, same_digest, FileHasher};
use crate::error::{Error, Fault};
use crate::fetching::{
    answered, course, course_outcome, course_start, course_step, keeps_truth,
    law_course_is_contents, lemma_course_more, lemma_course_step, place_of, Course,
};
use crate::index::{
    copy_segments, footer_answered, footer_in, header_version, index_answered, index_in,
    read_header, BlockInfo, Entry, EntryView, Footer, FooterView, Index, IndexView, Kind, Segment,
    FOOTER_LEN, HEADER_LEN,
};
use crate::select::{
    choose_entries, chosen, filter_view, in_block_order, is_block_order, law_block_order,
    law_chosen_once, lemma_chosen,
};
use crate::stream::{
    answer_of, asked_for, joined, lemma_asked_on, lemma_asked_once, lemma_joined_push,
    lemma_nothing_asked, lemma_nothing_passed, lemma_passed_on, met_from, passed_on, places, since,
    stays_true, window, Asked, Output, Progress, Sink, Source,
};

verus! {

/// The footer and the index of an archive, or why it is refused.
pub open spec fn opened(data: Seq<u8>) -> Result<(FooterView, IndexView), Fault> {
    match header_version(window(data, 0, HEADER_LEN as int)) {
        Err(f) => Err(f),
        Ok(_) => match footer_in(data) {
            Err(f) => Err(f),
            Ok(footer) => match index_in(data, footer) {
                Err(f) => Err(f),
                Ok(ix) => Ok((footer, ix)),
            },
        },
    }
}

/// What opening an archive of `len` bytes comes to, by what was handed over for its
/// header, its footer and its index.
pub open spec fn open_answered(len: u64, log: Seq<Asked>) -> Result<(FooterView, IndexView), Fault> {
    match log[0].answer {
        None => Err(Fault::TooShort),
        Some(head) => match header_version(head) {
            Err(f) => Err(f),
            Ok(_) => if len < HEADER_LEN + FOOTER_LEN {
                Err(Fault::TooShort)
            } else {
                match footer_answered(log[1].answer) {
                    Err(f) => Err(f),
                    Ok(footer) => match index_answered(footer, log[2].answer) {
                        Err(f) => Err(f),
                        Ok(ix) => Ok((footer, ix)),
                    },
                }
            },
        },
    }
}

/// The places that are asked for when an archive of `len` bytes is opened: its
/// header; if that is accepted and the archive is long enough, its footer; and if
/// that is found, the place of its index.
pub open spec fn open_places(len: u64, log: Seq<Asked>) -> Seq<(u64, u64)> {
    let head = (0u64, HEADER_LEN);
    let tail = ((len - FOOTER_LEN) as u64, FOOTER_LEN);
    let accepted = log[0].answer matches Some(bytes) && header_version(bytes) is Ok;
    if !accepted || len < HEADER_LEN + FOOTER_LEN {
        seq![head]
    } else {
        match footer_answered(log[1].answer) {
            Err(_) => seq![head, tail],
            Ok(f) => seq![head, tail, (f.offset as u64, f.clen as u64)],
        }
    }
}

/// What opening an archive came to.
pub open spec fn open_outcome(r: Result<Archive, Error>) -> Result<(FooterView, IndexView), Fault> {
    match r {
        Ok(a) => Ok((a.footer@, a.index@)),
        Err(e) => Err(e.fault),
    }
}

/// The block that was decoded last.
pub struct BlockCache {
    kept: Option<(u32, Vec<u8>)>,
}

impl View for BlockCache {
    type V = Option<(u32, Seq<u8>)>;

    /// The number of the block and what it decodes to, if there is one.
    closed spec fn view(&self) -> Option<(u32, Seq<u8>)> {
        match self.kept {
            Some((n, d)) => Some((n, d@)),
            None => None,
        }
    }
}

/// An open archive.
pub struct Archive {
    pub index: Index,
    pub footer: Footer,
    /// Most recently decoded block, kept because consecutive entries usually
    /// share one.
    pub cache: BlockCache,
}

impl Archive {
    /// What is kept decoded is what the block decodes to.
    pub open spec fn coherent(self, data: Seq<u8>) -> bool {
        keeps_truth(data, self.index.blocks@, self.cache@)
    }

    /// Open an archive of `len` bytes.
    pub fn open<S: Source>(len: u64, source: &mut S) -> (r: Result<Archive, Error>)
        ensures
            r matches Ok(a) ==> a.cache@ is None,
            stays_true(*old(source), *final(source)),
            asked_for(
                old(source).asked(),
                final(source).asked(),
                open_places(len, log_of(*old(source), *final(source))),
            ),
            open_outcome(r) == open_answered(len, log_of(*old(source), *final(source))),
            forall|data: Seq<u8>| #[trigger]
                old(source).holds(data) && data.len() == len ==> open_outcome(r) == opened(data),
    {
        let reply = source.fetch(0, HEADER_LEN);
        let ghost head = Asked { offset: 0, len: HEADER_LEN, answer: answer_of(reply) };
        let ghost first = *source;
        proof {
            lemma_asked_once(*old(source), first, head);
        }
        match reply {
            Ok(bytes) => match read_header(&bytes) {
                Ok(_) => {},
                Err(e) => {
                    return Err(e);
                },
            },
            Err(e) => {
                return Err(Error::io(Fault::TooShort, e));
            },
        }
        if len < HEADER_LEN + FOOTER_LEN {
            return Err(Error::new(Fault::TooShort));
        }
        let found = Footer::read(len, source);
        let ghost second = *source;
        let ghost tail = ((len - FOOTER_LEN) as u64, FOOTER_LEN);
        proof {
            lemma_asked_on(*old(source), first, second, seq![(0u64, HEADER_LEN)], seq![tail]);
            assert(places(since(second.asked(), first.asked().len())).len() == 1);
            assert(seq![(0u64, HEADER_LEN)] + seq![tail] =~= seq![(0u64, HEADER_LEN), tail]);
            let log = log_of(*old(source), second);
            assert(log.len() == 2);
            assert(log[0] == head);
            assert(log[1] == second.asked().last());
        }
        let footer = match found {
            Ok(footer) => footer,
            Err(e) => {
                return Err(e);
            },
        };
        let read = Index::read(source, &footer);
        proof {
            let at = (footer.index_offset, footer.index_clen);
            lemma_asked_on(
                *old(source),
                second,
                *source,
                seq![(0u64, HEADER_LEN), tail],
                seq![at],
            );
            assert(places(since(source.asked(), second.asked().len())).len() == 1);
            assert(seq![(0u64, HEADER_LEN), tail] + seq![at] =~= seq![
                (0u64, HEADER_LEN),
                tail,
                at,
            ]);
            let log = log_of(*old(source), *source);
            assert(log.len() == 3);
            assert(log[0] == head);
            assert(log[1] == second.asked().last());
            assert(log[2] == source.asked().last());
        }
        match read {
            Ok(index) => Ok(Archive { index, footer, cache: BlockCache { kept: None } }),
            Err(e) => Err(e),
        }
    }

    /// All entries, in the order of the index.
    pub fn entries(&self) -> (r: &[Entry])
        ensures
            r@ == self.index.entries@,
    {
        self.index.entries.as_slice()
    }

    /// Decode the block of a segment, unless it is the one that is kept, and find the
    /// segment's bytes in it.
    fn run<S: Source>(&mut self, s: Segment, source: &mut S) -> (r: Result<Vec<u8>, Error>)
        ensures
            follows(
                *old(self),
                *final(self),
                *old(source),
                *final(source),
                course_step(
                    course_start(old(self).cache@),
                    old(self).index.blocks@,
                    s,
                    log_of(*old(source), *final(source)),
                ),
            ),
            is_run(
                r,
                s,
                course_step(
                    course_start(old(self).cache@),
                    old(self).index.blocks@,
                    s,
                    log_of(*old(source), *final(source)),
                ),
            ),
    {
        let hit = match &self.cache.kept {
            Some((n, _)) => *n == s.block,
            None => false,
        };
        proof {
            lemma_nothing_asked(*source);
        }
        if !hit {
            if s.block as u64 >= self.index.blocks.len() as u64 {
                return Err(Error::new(Fault::MissingBlock(s.block)));
            }
            let info = self.index.blocks[s.block as usize];
            let loaded = load_block(&info, source);
            proof {
                lemma_place(info, *old(source), *source);
                assert(Seq::<(u64, u64)>::empty() + place_of(info) =~= place_of(info));
            }
            match loaded {
                Ok(d) => {
                    self.cache = BlockCache { kept: Some((s.block, d)) };
                },
                Err(e) => {
                    return Err(e);
                },
            }
        }
        match &self.cache.kept {
            Some((n, d)) => {
                let r = segment_run(d, s);
                proof {
                    if r is Ok {
                        assert(Seq::<Seq<u8>>::empty().push(r->Ok_0@) =~= seq![r->Ok_0@]);
                    }
                }
                r
            },
            None => vstd::pervasive::unreached(),
        }
    }
}

/// What a source was asked since, and what it handed over.
pub open spec fn log_of<S: Source>(before: S, after: S) -> Seq<Asked> {
    since(after.asked(), before.asked().len())
}

/// An archive was read along this course: its index and footer are what they were,
/// the block that it keeps is the course's, and the source was asked for the
/// course's places and nothing else.
pub open spec fn follows<S: Source>(a: Archive, now: Archive, before: S, after: S, t: Course) -> bool {
    &&& now.index == a.index
    &&& now.footer == a.footer
    &&& now.cache@ == t.kept
    &&& asked_for(before.asked(), after.asked(), t.asked)
    &&& stays_true(before, after)
}

/// The run of one segment, by its course.
spec fn is_run(r: Result<Vec<u8>, Error>, s: Segment, t: Course) -> bool {
    match r {
        Ok(run) => t.fault is None && t.runs == seq![run@] && run@.len() == s.len,
        Err(e) => t.fault == Some(e.fault) && t.runs == Seq::<Seq<u8>>::empty(),
    }
}

/// The answer for a block that was asked for is the last one.
proof fn lemma_place<S: Source>(b: BlockInfo, before: S, after: S)
    requires
        asked_for(before.asked(), after.asked(), place_of(b)),
    ensures
        codec_of(b.codec) is Some ==> log_of(before, after).len() == 1 && log_of(before, after)[0]
            == after.asked().last(),
{
    assert(places(log_of(before, after)).len() == place_of(b).len());
}

/// The course of some segments, for any archive that the source holds.
proof fn lemma_true_course<S: Source>(
    kept: Option<(u32, Seq<u8>)>,
    blocks: Seq<BlockInfo>,
    segments: Seq<Segment>,
    before: S,
    after: S,
)
    requires
        stays_true(before, after),
        asked_for(
            before.asked(),
            after.asked(),
            course(kept, blocks, segments, log_of(before, after)).asked,
        ),
    ensures
        forall|data: Seq<u8>| #[trigger]
            before.holds(data) && keeps_truth(data, blocks, kept) ==> {
                let t = course(kept, blocks, segments, log_of(before, after));
                &&& keeps_truth(data, blocks, t.kept)
                &&& course_outcome(t) == contents(data, blocks, segments)
            },
{
    let log = log_of(before, after);
    let t = course(kept, blocks, segments, log);
    assert forall|data: Seq<u8>| #[trigger]
        before.holds(data) && keeps_truth(data, blocks, kept) implies {
        &&& keeps_truth(data, blocks, t.kept)
        &&& course_outcome(t) == contents(data, blocks, segments)
    } by {
        law_course_is_contents(data, kept, blocks, segments, log);
    }
}

/// One segment more was read.
proof fn lemma_next_run<S: Source>(
    a0: Archive,
    a1: Archive,
    a2: Archive,
    s0: S,
    s1: S,
    s2: S,
    segments: Seq<Segment>,
    n: int,
    r: Result<Vec<u8>, Error>,
)
    requires
        0 <= n < segments.len(),
        follows(
            a0,
            a1,
            s0,
            s1,
            course(a0.cache@, a0.index.blocks@, segments.take(n), log_of(s0, s1)),
        ),
        course(a0.cache@, a0.index.blocks@, segments.take(n), log_of(s0, s1)).fault is None,
        follows(
            a1,
            a2,
            s1,
            s2,
            course_step(
                course_start(a1.cache@),
                a1.index.blocks@,
                segments[n],
                log_of(s1, s2),
            ),
        ),
        is_run(
            r,
            segments[n],
            course_step(
                course_start(a1.cache@),
                a1.index.blocks@,
                segments[n],
                log_of(s1, s2),
            ),
        ),
    ensures
        ({
            let was = course(a0.cache@, a0.index.blocks@, segments.take(n), log_of(s0, s1));
            let t = course(a0.cache@, a0.index.blocks@, segments.take(n + 1), log_of(s0, s2));
            &&& follows(a0, a2, s0, s2, t)
            &&& match r {
                Ok(run) => {
                    &&& t.fault is None
                    &&& t.runs == was.runs.push(run@)
                    &&& joined(t.runs) == joined(was.runs) + run@
                },
                Err(e) => t.fault == Some(e.fault) && t.runs == was.runs,
            }
        }),
{
    let blocks = a0.index.blocks@;
    let was = course(a0.cache@, blocks, segments.take(n), log_of(s0, s1));
    let one = course_step(course_start(a1.cache@), blocks, segments[n], log_of(s1, s2));
    lemma_asked_on(s0, s1, s2, was.asked, one.asked);
    lemma_course_step(a0.cache@, blocks, segments, n, log_of(s0, s1), log_of(s1, s2));
    if r is Ok {
        assert(was.runs + seq![r->Ok_0@] =~= was.runs.push(r->Ok_0@));
        lemma_joined_push(was.runs, r->Ok_0@);
    } else {
        assert(was.runs + Seq::<Seq<u8>>::empty() =~= was.runs);
    }
}

/// If reading the first segments ends with a fault, so does reading them all.
pub proof fn lemma_course_ends(
    kept: Option<(u32, Seq<u8>)>,
    blocks: Seq<BlockInfo>,
    segments: Seq<Segment>,
    n: int,
    log: Seq<Asked>,
)
    requires
        0 <= n <= segments.len(),
        course(kept, blocks, segments.take(n), log).fault is Some,
    ensures
        course(kept, blocks, segments, log) == course(kept, blocks, segments.take(n), log),
    decreases segments.len() - n,
{
    if n < segments.len() {
        assert(segments.take(n + 1).drop_last() =~= segments.take(n));
        lemma_course_ends(kept, blocks, segments, n + 1, log);
    } else {
        assert(segments.take(n) =~= segments);
    }
}

/// What hashing some bytes came to.
spec fn hash_outcome(r: Result<FileHasher, Error>) -> Result<Seq<u8>, Fault> {
    match r {
        Ok(h) => Ok(h@),
        Err(e) => Err(e.fault),
    }
}

/// What reading some bytes came to.
pub open spec fn bytes_outcome(r: Result<Vec<u8>, Error>) -> Result<Seq<u8>, Fault> {
    match r {
        Ok(b) => Ok(b@),
        Err(e) => Err(e.fault),
    }
}

/// Read and decode a stored block. Its place is the one request; of a block of an
/// unknown codec nothing is asked.
pub fn load_block<S: Source>(info: &BlockInfo, source: &mut S) -> (r: Result<Vec<u8>, Error>)
    ensures
        stays_true(*old(source), *final(source)),
        asked_for(old(source).asked(), final(source).asked(), place_of(*info)),
        bytes_outcome(r) == answered(*info, final(source).asked().last().answer),
        forall|data: Seq<u8>| #[trigger]
            old(source).holds(data) ==> bytes_outcome(r) == block_contents(data, *info),
{
    let codec = match Codec::from_u8(info.codec) {
        Ok(codec) => codec,
        Err(e) => {
            proof {
                lemma_nothing_asked(*source);
            }
            return Err(e);
        },
    };
    let reply = source.fetch(info.offset, info.clen);
    proof {
        lemma_asked_once(
            *old(source),
            *source,
            Asked { offset: info.offset, len: info.clen, answer: answer_of(reply) },
        );
    }
    match reply {
        Ok(raw) => decode_block(codec, &raw, info.rlen),
        Err(e) => Err(Error::io(Fault::Source, e)),
    }
}

/// The run of bytes that a segment names in its decoded block.
pub fn segment_run(decoded: &Vec<u8>, s: Segment) -> (r: Result<Vec<u8>, Error>)
    ensures
        match r {
            Ok(run) => segment_of_block(decoded@, s) == Ok::<Seq<u8>, Fault>(run@) && run@.len()
                == s.len,
            Err(e) => segment_of_block(decoded@, s) == Err::<Seq<u8>, Fault>(e.fault),
        },
{
    let len: u64 = decoded.len() as u64;
    if s.offset > len || s.len > len - s.offset {
        return Err(Error::new(Fault::SegmentRange));
    }
    let from: usize = s.offset as usize;
    let to: usize = from + s.len as usize;
    let mut run: Vec<u8> = Vec::new();
    run.extend_from_slice(vstd::slice::slice_subrange(decoded.as_slice(), from, to));
    assert(run@ =~= decoded@.subrange(from as int, to as int));
    Ok(run)
}

/// The sum of the lengths of some segments.
pub open spec fn total_len(segments: Seq<Segment>) -> nat
    decreases segments.len(),
{
    if segments.len() == 0 {
        0
    } else {
        total_len(segments.drop_last()) + segments.last().len as nat
    }
}

/// Fewer segments are no longer.
pub proof fn lemma_total_len_take(segments: Seq<Segment>, n: int)
    requires
        0 <= n <= segments.len(),
    ensures
        total_len(segments.take(n)) <= total_len(segments),
    decreases segments.len() - n,
{
    if n < segments.len() {
        assert(segments.take(n + 1).drop_last() =~= segments.take(n));
        lemma_total_len_take(segments, n + 1);
    } else {
        assert(segments.take(n) =~= segments);
    }
}

/// What some segments hold is as long as they are.
pub proof fn lemma_contents_len(data: Seq<u8>, blocks: Seq<BlockInfo>, segments: Seq<Segment>)
    ensures
        contents(data, blocks, segments) matches Ok(got) ==> got.len() == total_len(segments),
    decreases segments.len(),
{
    if segments.len() > 0 {
        lemma_contents_len(data, blocks, segments.drop_last());
    }
}

/// What checking a file's bytes against the hash that its entry records comes
/// to: a fault, if the entry records another.
pub open spec fn hash_fault(hash: Option<Seq<u8>>, got: Seq<u8>) -> Option<Fault> {
    match hash {
        Some(h) if h != blake3_of(got) => Some(Fault::Checksum),
        _ => None,
    }
}

/// A file's bytes, checked against the hash that its entry records.
pub open spec fn checked_contents(data: Seq<u8>, blocks: Seq<BlockInfo>, e: EntryView) -> Result<
    Seq<u8>,
    Fault,
> {
    match contents(data, blocks, e.segments) {
        Err(f) => Err(f),
        Ok(got) => match hash_fault(e.hash, got) {
            Some(f) => Err(f),
            None => Ok(got),
        },
    }
}

/// A file's bytes as extraction gives them, checked or not.
pub open spec fn extracted_contents(
    data: Seq<u8>,
    blocks: Seq<BlockInfo>,
    e: EntryView,
    verify: bool,
) -> Result<Seq<u8>, Fault> {
    if verify {
        checked_contents(data, blocks, e)
    } else {
        contents(data, blocks, e.segments)
    }
}

/// Check what a file's bytes were hashed to against the hash that its entry
/// records.
pub fn check_hash(hash: &Option<[u8; 32]>, hasher: &FileHasher) -> (r: Result<(), Error>)
    ensures
        match r {
            Ok(()) => hash_fault(crate::index::hash_view(*hash), hasher@) is None,
            Err(e) => hash_fault(crate::index::hash_view(*hash), hasher@) == Some(e.fault),
        },
{
    match hash {
        Some(expected) => {
            let got = hasher.finish();
            if same_digest(&got, expected) {
                Ok(())
            } else {
                Err(Error::new(Fault::Checksum))
            }
        },
        None => Ok(()),
    }
}

/// Streaming a file's bytes behind `before` came to this after the first `n` of its
/// segments, which were read along the course `t`: which of their runs stand there
/// afterwards, and on a failure why the rest does not. `refused` says that the sink
/// failed to take what it was given.
pub open spec fn streamed(
    e: EntryView,
    verify: bool,
    n: int,
    t: Course,
    refused: bool,
    before: Seq<u8>,
    after: Seq<u8>,
    fault: Option<Fault>,
) -> bool {
    &&& 0 <= n <= e.segments.len()
    &&& refused == (fault == Some(Fault::Sink))
    &&& match fault {
        None => {
            &&& n == e.segments.len()
            &&& t.fault is None
            &&& after == before + joined(t.runs)
            &&& verify ==> hash_fault(e.hash, joined(t.runs)) is None
        },
        Some(f) => {
            ||| t.fault == Some(f) && after == before + joined(t.runs)
            ||| {
                &&& t.fault is None
                &&& f == Fault::Sink
                &&& after == before + joined(t.runs)
            }
            ||| {
                &&& t.fault is None
                &&& f == Fault::TooLong
                &&& t.runs.len() > 0
                &&& after == before + joined(t.runs.drop_last())
                &&& before.len() + joined(t.runs).len() > u64::MAX
            }
            ||| {
                &&& t.fault is None
                &&& n == e.segments.len()
                &&& verify
                &&& hash_fault(e.hash, joined(t.runs)) == Some(f)
                &&& after == before + joined(t.runs)
            }
        },
    }
}

/// A file was streamed up to its first `n` segments: they were read along their
/// course, and what stands in the stream is what they hold.
pub open spec fn streamed_upto<S: Source, T: Sink>(
    a: Archive,
    now: Archive,
    source: S,
    source_now: S,
    sink: T,
    sink_now: T,
    e: EntryView,
    verify: bool,
    n: int,
    before: Seq<u8>,
    after: Seq<u8>,
    fault: Option<Fault>,
) -> bool {
    let t = course(a.cache@, a.index.blocks@, e.segments.take(n), log_of(source, source_now));
    let refused = sink_now.failures() != sink.failures();
    &&& follows(a, now, source, source_now, t)
    &&& streamed(e, verify, n, t, refused, before, after, fault)
}

/// A file was streamed: all its segments, or some of them if it failed.
pub open spec fn is_streamed<S: Source, T: Sink>(
    a: Archive,
    now: Archive,
    source: S,
    source_now: S,
    sink: T,
    sink_now: T,
    e: EntryView,
    verify: bool,
    before: Seq<u8>,
    after: Seq<u8>,
    fault: Option<Fault>,
) -> bool {
    exists|n: int| #[trigger]
        streamed_upto(
            a,
            now,
            source,
            source_now,
            sink,
            sink_now,
            e,
            verify,
            n,
            before,
            after,
            fault,
        )
}

/// The fault with which an operation failed, if it did.
pub open spec fn fault_of(r: Result<(), Error>) -> Option<Fault> {
    match r {
        Ok(()) => None,
        Err(e) => Some(e.fault),
    }
}

impl Archive {
    /// Read one file entry's full contents into memory.
    pub fn read_file<S: Source>(&mut self, entry: &Entry, source: &mut S) -> (r: Result<
        Vec<u8>,
        Error,
    >)
        ensures
            r matches Ok(out) ==> out@.len() == total_len(entry.segments@),
            follows(
                *old(self),
                *final(self),
                *old(source),
                *final(source),
                course(
                    old(self).cache@,
                    old(self).index.blocks@,
                    entry.segments@,
                    log_of(*old(source), *final(source)),
                ),
            ),
            bytes_outcome(r) == course_outcome(
                course(
                    old(self).cache@,
                    old(self).index.blocks@,
                    entry.segments@,
                    log_of(*old(source), *final(source)),
                ),
            ),
            forall|data: Seq<u8>| #[trigger]
                old(source).holds(data) && old(self).coherent(data) ==> {
                    &&& final(self).coherent(data)
                    &&& bytes_outcome(r) == contents(
                        data,
                        old(self).index.blocks@,
                        entry.segments@,
                    )
                },
    {
        let ghost blocks = self.index.blocks@;
        let ghost kept = self.cache@;
        let ghost segments = entry.segments@;
        let mut out: Vec<u8> = Vec::new();
        let mut i: usize = 0;
        proof {
            assert(segments.take(0) =~= Seq::<Segment>::empty());
            lemma_nothing_asked(*source);
        }
        while i < entry.segments.len()
            invariant
                i <= segments.len(),
                segments == entry.segments@,
                kept == old(self).cache@,
                blocks == old(self).index.blocks@,
                follows(
                    *old(self),
                    *self,
                    *old(source),
                    *source,
                    course(
                        kept,
                        blocks,
                        segments.take(i as int),
                        log_of(*old(source), *source),
                    ),
                ),
                course_outcome(
                    course(
                        kept,
                        blocks,
                        segments.take(i as int),
                        log_of(*old(source), *source),
                    ),
                ) == Ok::<Seq<u8>, Fault>(out@),
                out@.len() == total_len(segments.take(i as int)),
            decreases segments.len() - i,
        {
            let ghost (a1, s1) = (*self, *source);
            let step = self.run(entry.segments[i], source);
            proof {
                lemma_next_run(
                    *old(self),
                    a1,
                    *self,
                    *old(source),
                    s1,
                    *source,
                    segments,
                    i as int,
                    step,
                );
                assert(segments.take(i + 1).drop_last() =~= segments.take(i as int));
            }
            match step {
                Ok(run) => {
                    let ghost before = out@;
                    out.extend_from_slice(&run);
                    assert(out@ =~= before + run@);
                },
                Err(e) => {
                    proof {
                        lemma_course_ends(
                            kept,
                            blocks,
                            segments,
                            i + 1,
                            log_of(*old(source), *source),
                        );
                        lemma_true_course(kept, blocks, segments, *old(source), *source);
                    }
                    return Err(e);
                },
            }
            i += 1;
        }
        proof {
            assert(segments.take(i as int) =~= segments);
            lemma_true_course(kept, blocks, segments, *old(source), *source);
        }
        Ok(out)
    }

    /// Hash one file entry's contents, block by block.
    fn hash_contents<S: Source>(&mut self, segments: &Vec<Segment>, source: &mut S) -> (r: Result<
        FileHasher,
        Error,
    >)
        ensures
            follows(
                *old(self),
                *final(self),
                *old(source),
                *final(source),
                course(
                    old(self).cache@,
                    old(self).index.blocks@,
                    segments@,
                    log_of(*old(source), *final(source)),
                ),
            ),
            hash_outcome(r) == course_outcome(
                course(
                    old(self).cache@,
                    old(self).index.blocks@,
                    segments@,
                    log_of(*old(source), *final(source)),
                ),
            ),
    {
        let ghost blocks = self.index.blocks@;
        let ghost kept = self.cache@;
        let mut hasher = FileHasher::new();
        let mut i: usize = 0;
        proof {
            assert(segments@.take(0) =~= Seq::<Segment>::empty());
            lemma_nothing_asked(*source);
        }
        while i < segments.len()
            invariant
                i <= segments@.len(),
                kept == old(self).cache@,
                blocks == old(self).index.blocks@,
                follows(
                    *old(self),
                    *self,
                    *old(source),
                    *source,
                    course(
                        kept,
                        blocks,
                        segments@.take(i as int),
                        log_of(*old(source), *source),
                    ),
                ),
                course_outcome(
                    course(
                        kept,
                        blocks,
                        segments@.take(i as int),
                        log_of(*old(source), *source),
                    ),
                ) == Ok::<Seq<u8>, Fault>(hasher@),
            decreases segments@.len() - i,
        {
            let ghost (a1, s1) = (*self, *source);
            let step = self.run(segments[i], source);
            proof {
                lemma_next_run(
                    *old(self),
                    a1,
                    *self,
                    *old(source),
                    s1,
                    *source,
                    segments@,
                    i as int,
                    step,
                );
            }
            match step {
                Ok(run) => {
                    hasher.update(&run);
                },
                Err(e) => {
                    proof {
                        lemma_course_ends(
                            kept,
                            blocks,
                            segments@,
                            i + 1,
                            log_of(*old(source), *source),
                        );
                    }
                    return Err(e);
                },
            }
            i += 1;
        }
        assert(segments@.take(i as int) =~= segments@);
        Ok(hasher)
    }

    /// The body of [`Archive::extract_file_to`].
    fn stream_file<S: Source, T: Sink>(
        &mut self,
        entry: &Entry,
        verify: bool,
        source: &mut S,
        sink: &mut T,
        out: &mut Output,
    ) -> (r: Result<(), Error>)
        requires
            old(out).wf(),
        ensures
            final(out).wf(),
            is_streamed(
                *old(self),
                *final(self),
                *old(source),
                *final(source),
                *old(sink),
                *final(sink),
                entry@,
                verify,
                old(out)@,
                final(out)@,
                fault_of(r),
            ),
            passed_on(*old(sink), *final(sink), *old(out), *final(out)),
            r is Ok ==> {
                &&& final(out).pending() == Seq::<u8>::empty()
                &&& final(out)@.len() == old(out)@.len() + total_len(entry.segments@)
                &&& final(sink).taken() == old(sink).taken() + since(
                    final(out)@,
                    old(out).handed_on().len(),
                )
            },
            entry.segments@.len() == 0 && old(out).pending().len() == 0 && (verify ==> hash_fault(
                entry@.hash,
                Seq::empty(),
            ) is None) ==> r is Ok,
            forall|data: Seq<u8>| #[trigger]
                old(source).holds(data) && old(self).coherent(data) ==> {
                    let all = extracted_contents(data, old(self).index.blocks@, entry@, verify);
                    &&& final(self).coherent(data)
                    &&& match r {
                        Ok(()) => {
                            &&& all matches Ok(got)
                            &&& final(out)@ == old(out)@ + got
                            &&& final(sink).taken() == old(sink).taken() + old(out).pending() + got
                        },
                        Err(e) => {
                            ||| all == Err::<Seq<u8>, Fault>(e.fault)
                            ||| e.fault == Fault::Sink
                            ||| e.fault == Fault::TooLong && old(out)@.len() + total_len(
                                entry.segments@,
                            ) > u64::MAX
                        },
                    }
                },
    {
        let ghost blocks = self.index.blocks@;
        let ghost kept = self.cache@;
        let ghost segments = entry.segments@;
        let mut hasher = FileHasher::new();
        let mut i: usize = 0;
        proof {
            assert(segments.take(0) =~= Seq::<Segment>::empty());
            lemma_nothing_asked(*source);
            lemma_nothing_passed(*sink, *out, *out);
            assert(out@ + hasher@ =~= out@);
        }
        while i < entry.segments.len()
            invariant
                i <= segments.len(),
                segments == entry.segments@,
                kept == old(self).cache@,
                blocks == old(self).index.blocks@,
                old(out).wf(),
                out.wf(),
                follows(
                    *old(self),
                    *self,
                    *old(source),
                    *source,
                    course(
                        kept,
                        blocks,
                        segments.take(i as int),
                        log_of(*old(source), *source),
                    ),
                ),
                course_outcome(
                    course(
                        kept,
                        blocks,
                        segments.take(i as int),
                        log_of(*old(source), *source),
                    ),
                ) == Ok::<Seq<u8>, Fault>(hasher@),
                hasher@.len() == total_len(segments.take(i as int)),
                out@ == old(out)@ + hasher@,
                passed_on(*old(sink), *sink, *old(out), *out),
                sink.failures() == old(sink).failures(),
                i == 0 ==> out.pending() == old(out).pending(),
            decreases segments.len() - i,
        {
            let ghost (a1, s1) = (*self, *source);
            let ghost was = course(
                kept,
                blocks,
                segments.take(i as int),
                log_of(*old(source), *source),
            );
            let step = self.run(entry.segments[i], source);
            let ghost t = course(
                kept,
                blocks,
                segments.take(i + 1),
                log_of(*old(source), *source),
            );
            proof {
                lemma_next_run(
                    *old(self),
                    a1,
                    *self,
                    *old(source),
                    s1,
                    *source,
                    segments,
                    i as int,
                    step,
                );
                assert(segments.take(i + 1).drop_last() =~= segments.take(i as int));
                lemma_total_len_take(segments, i + 1);
                lemma_true_course(kept, blocks, segments.take(i + 1), *old(source), *source);
            }
            let run = match step {
                Ok(run) => run,
                Err(e) => {
                    proof {
                        lemma_course_ends(
                            kept,
                            blocks,
                            segments,
                            i + 1,
                            log_of(*old(source), *source),
                        );
                        lemma_true_course(kept, blocks, segments, *old(source), *source);
                        assert(streamed_upto(
                            *old(self),
                            *self,
                            *old(source),
                            *source,
                            *old(sink),
                            *sink,
                            entry@,
                            verify,
                            i + 1,
                            old(out)@,
                            out@,
                            Some(e.fault),
                        ));
                    }
                    return Err(e);
                },
            };
            let ghost o1 = *out;
            match out.write(&run) {
                Ok(()) => {},
                Err(e) => {
                    proof {
                        assert(t.runs.drop_last() =~= was.runs);
                        assert(streamed_upto(
                            *old(self),
                            *self,
                            *old(source),
                            *source,
                            *old(sink),
                            *sink,
                            entry@,
                            verify,
                            i + 1,
                            old(out)@,
                            out@,
                            Some(e.fault),
                        ));
                        lemma_nothing_passed(*sink, o1, *out);
                        lemma_passed_on(*old(sink), *sink, *sink, *old(out), o1, *out);
                    }
                    return Err(e);
                },
            }
            hasher.update(&run);
            let ghost (k1, o2) = (*sink, *out);
            proof {
                assert(out@ =~= old(out)@ + hasher@);
                lemma_nothing_passed(*sink, o1, o2);
                lemma_passed_on(*old(sink), *sink, *sink, *old(out), o1, o2);
            }
            let drained = out.drain(sink);
            proof {
                lemma_passed_on(*old(sink), k1, *sink, *old(out), o2, *out);
            }
            match drained {
                Ok(()) => {},
                Err(e) => {
                    assert(streamed_upto(
                            *old(self),
                            *self,
                            *old(source),
                            *source,
                            *old(sink),
                            *sink,
                            entry@,
                            verify,
                            i + 1,
                            old(out)@,
                            out@,
                            Some(e.fault),
                        ));
                    return Err(e);
                },
            }
            i += 1;
        }
        let ghost t = course(kept, blocks, segments, log_of(*old(source), *source));
        proof {
            assert(segments.take(i as int) =~= segments);
            lemma_true_course(kept, blocks, segments, *old(source), *source);
        }
        if verify {
            match check_hash(&entry.hash, &hasher) {
                Ok(()) => {},
                Err(e) => {
                    assert(streamed_upto(
                            *old(self),
                            *self,
                            *old(source),
                            *source,
                            *old(sink),
                            *sink,
                            entry@,
                            verify,
                            i as int,
                            old(out)@,
                            out@,
                            Some(e.fault),
                        ));
                    return Err(e);
                },
            }
        }
        let ghost (k1, o1) = (*sink, *out);
        let r = out.drain(sink);
        proof {
            lemma_passed_on(*old(sink), k1, *sink, *old(out), o1, *out);
            assert(streamed_upto(
                            *old(self),
                            *self,
                            *old(source),
                            *source,
                            *old(sink),
                            *sink,
                            entry@,
                            verify,
                            i as int,
                            old(out)@,
                            out@,
                            fault_of(r),
                        ));
            if r is Ok {
                let n = old(out).handed_on().len();
                assert(out.handed_on() =~= out@);
                assert(since(out@, n) =~= old(out).pending() + hasher@);
                assert(old(sink).taken() + (old(out).pending() + hasher@) =~= old(sink).taken()
                    + old(out).pending() + hasher@);
            }
        }
        r
    }

    /// Stream one file entry's contents into `out`, handing them on to `sink` as they
    /// come, and with `verify` check them against the hash that the entry records.
    pub fn extract_file_to<S: Source, T: Sink>(
        &mut self,
        entry: &Entry,
        verify: bool,
        source: &mut S,
        sink: &mut T,
        out: &mut Output,
    ) -> (r: Result<(), Error>)
        requires
            old(out).wf(),
        ensures
            final(out).wf(),
            is_streamed(
                *old(self),
                *final(self),
                *old(source),
                *final(source),
                *old(sink),
                *final(sink),
                entry@,
                verify,
                old(out)@,
                final(out)@,
                fault_of(r),
            ),
            passed_on(*old(sink), *final(sink), *old(out), *final(out)),
            r is Ok ==> {
                &&& final(out).pending() == Seq::<u8>::empty()
                &&& final(out)@.len() == old(out)@.len() + total_len(entry.segments@)
                &&& final(sink).taken() == old(sink).taken() + since(
                    final(out)@,
                    old(out).handed_on().len(),
                )
            },
            entry.segments@.len() == 0 && old(out).pending().len() == 0 && (verify ==> hash_fault(
                entry@.hash,
                Seq::empty(),
            ) is None) ==> r is Ok,
            forall|data: Seq<u8>| #[trigger]
                old(source).holds(data) && old(self).coherent(data) ==> {
                    let all = extracted_contents(data, old(self).index.blocks@, entry@, verify);
                    &&& final(self).coherent(data)
                    &&& match r {
                        Ok(()) => {
                            &&& all matches Ok(got)
                            &&& final(out)@ == old(out)@ + got
                            &&& final(sink).taken() == old(sink).taken() + old(out).pending() + got
                        },
                        Err(e) => {
                            ||| all == Err::<Seq<u8>, Fault>(e.fault)
                            ||| e.fault == Fault::Sink
                            ||| e.fault == Fault::TooLong && old(out)@.len() + total_len(
                                entry.segments@,
                            ) > u64::MAX
                        },
                    }
                },
            forall|data: Seq<u8>| #[trigger]
                old(source).holds(data) && old(self).coherent(data) ==> (contents(
                    data,
                    old(self).index.blocks@,
                    entry.segments@,
                ) matches Ok(got) ==> final(sink).taken().is_prefix_of(
                    old(sink).taken() + old(out).pending() + got,
                )),
    {
        let r = self.stream_file(entry, verify, source, sink, out);
        proof {
            lemma_taken_for_all(
                *old(self),
                *self,
                *old(source),
                *source,
                *old(sink),
                *sink,
                *old(out),
                *out,
                entry@,
                verify,
                fault_of(r),
            );
        }
        r
    }

    /// Stream one file entry's contents into `out`, handing them on to `sink` as they
    /// come.
    pub fn write_file_to<S: Source, T: Sink>(
        &mut self,
        entry: &Entry,
        source: &mut S,
        sink: &mut T,
        out: &mut Output,
    ) -> (r: Result<(), Error>)
        requires
            old(out).wf(),
        ensures
            final(out).wf(),
            is_streamed(
                *old(self),
                *final(self),
                *old(source),
                *final(source),
                *old(sink),
                *final(sink),
                entry@,
                false,
                old(out)@,
                final(out)@,
                fault_of(r),
            ),
            passed_on(*old(sink), *final(sink), *old(out), *final(out)),
            r is Ok ==> {
                &&& final(out).pending() == Seq::<u8>::empty()
                &&& final(out)@.len() == old(out)@.len() + total_len(entry.segments@)
                &&& final(sink).taken() == old(sink).taken() + since(
                    final(out)@,
                    old(out).handed_on().len(),
                )
            },
            entry.segments@.len() == 0 && old(out).pending().len() == 0 ==> r is Ok,
            forall|data: Seq<u8>| #[trigger]
                old(source).holds(data) && old(self).coherent(data) ==> {
                    let all = contents(data, old(self).index.blocks@, entry.segments@);
                    &&& final(self).coherent(data)
                    &&& match r {
                        Ok(()) => {
                            &&& all matches Ok(got)
                            &&& final(out)@ == old(out)@ + got
                            &&& final(sink).taken() == old(sink).taken() + old(out).pending() + got
                        },
                        Err(e) => {
                            ||| all == Err::<Seq<u8>, Fault>(e.fault)
                            ||| e.fault == Fault::Sink
                            ||| e.fault == Fault::TooLong && old(out)@.len() + total_len(
                                entry.segments@,
                            ) > u64::MAX
                        },
                    }
                },
            forall|data: Seq<u8>| #[trigger]
                old(source).holds(data) && old(self).coherent(data) ==> (contents(
                    data,
                    old(self).index.blocks@,
                    entry.segments@,
                ) matches Ok(got) ==> final(sink).taken().is_prefix_of(
                    old(sink).taken() + old(out).pending() + got,
                )),
    {
        self.extract_file_to(entry, false, source, sink, out)
    }
}

/// The first of some segments hold the beginning of what they all hold.
proof fn lemma_contents_begin(data: Seq<u8>, blocks: Seq<BlockInfo>, segments: Seq<Segment>, n: int)
    requires
        0 <= n <= segments.len(),
        contents(data, blocks, segments) is Ok,
    ensures
        contents(data, blocks, segments.take(n)) is Ok,
        contents(data, blocks, segments.take(n))->Ok_0.is_prefix_of(
            contents(data, blocks, segments)->Ok_0,
        ),
    decreases segments.len(),
{
    if n < segments.len() {
        let init = segments.drop_last();
        lemma_contents_begin(data, blocks, init, n);
        assert(init.take(n) =~= segments.take(n));
    } else {
        assert(segments.take(n) =~= segments);
    }
}

/// Of a file that was streamed, whatever came of it, the sink took nothing but its
/// beginning, behind what was waiting in the stream.
pub proof fn law_sink_takes_the_beginning<S: Source, T: Sink>(
    data: Seq<u8>,
    a: Archive,
    now: Archive,
    source: S,
    source_now: S,
    sink: T,
    sink_now: T,
    out: Output,
    out_now: Output,
    e: EntryView,
    verify: bool,
    fault: Option<Fault>,
    file: Seq<u8>,
)
    requires
        source.holds(data),
        a.coherent(data),
        contents(data, a.index.blocks@, e.segments) == Ok::<Seq<u8>, Fault>(file),
        passed_on(sink, sink_now, out, out_now),
        is_streamed(
            a,
            now,
            source,
            source_now,
            sink,
            sink_now,
            e,
            verify,
            out@,
            out_now@,
            fault,
        ),
    ensures
        sink.taken().is_prefix_of(sink_now.taken()),
        sink_now.taken().is_prefix_of(sink.taken() + out.pending() + file),
{
    let n = choose|n: int| #[trigger]
        streamed_upto(
            a,
            now,
            source,
            source_now,
            sink,
            sink_now,
            e,
            verify,
            n,
            out@,
            out_now@,
            fault,
        );
    let blocks = a.index.blocks@;
    let log = log_of(source, source_now);
    let some = e.segments.take(n);
    let t = course(a.cache@, blocks, some, log);
    law_course_is_contents(data, a.cache@, blocks, some, log);
    lemma_contents_begin(data, blocks, e.segments, n);
    assert(joined(t.runs).is_prefix_of(file));
    if t.runs.len() > 0 {
        assert(joined(t.runs) == joined(t.runs.drop_last()) + t.runs.last());
    }
    let came = since(out_now@, out@.len());
    assert(came.is_prefix_of(file)) by {
        if out_now@ == out@ + joined(t.runs) {
            assert(came =~= joined(t.runs));
        } else {
            assert(came =~= joined(t.runs.drop_last()));
        }
    }
    assert(out_now@ =~= out@ + came);
    let more = since(out_now.handed_on(), out.handed_on().len());
    let whole = out.pending() + came;
    assert(out_now@ =~= out.handed_on() + whole);
    assert forall|i: int| 0 <= i < more.len() implies more[i] == whole[i] by {
        let h = out.handed_on().len();
        assert(out_now@[h + i] == out_now.handed_on()[h + i]);
        assert((out.handed_on() + whole)[h + i] == whole[i]);
    }
    assert(more.len() <= whole.len());
    assert(more =~= whole.take(more.len() as int));
    assert(sink.taken() + out.pending() + file =~= sink.taken() + (out.pending() + file));
}

proof fn lemma_taken_for_all<S: Source, T: Sink>(
    a: Archive,
    now: Archive,
    source: S,
    source_now: S,
    sink: T,
    sink_now: T,
    out: Output,
    out_now: Output,
    e: EntryView,
    verify: bool,
    fault: Option<Fault>,
)
    requires
        passed_on(sink, sink_now, out, out_now),
        is_streamed(
            a,
            now,
            source,
            source_now,
            sink,
            sink_now,
            e,
            verify,
            out@,
            out_now@,
            fault,
        ),
    ensures
        forall|data: Seq<u8>| #[trigger]
            source.holds(data) && a.coherent(data) ==> (contents(
                data,
                a.index.blocks@,
                e.segments,
            ) matches Ok(got) ==> sink_now.taken().is_prefix_of(
                sink.taken() + out.pending() + got,
            )),
{
    assert forall|data: Seq<u8>| #[trigger] source.holds(data) && a.coherent(data) implies (
    contents(data, a.index.blocks@, e.segments) matches Ok(got) ==> sink_now.taken().is_prefix_of(
        sink.taken() + out.pending() + got,
    )) by {
        if contents(data, a.index.blocks@, e.segments) is Ok {
            law_sink_takes_the_beginning(
                data,
                a,
                now,
                source,
                source_now,
                sink,
                sink_now,
                out,
                out_now,
                e,
                verify,
                fault,
                contents(data, a.index.blocks@, e.segments)->Ok_0,
            );
        }
    }
}

/// The first fault among the first `n` listed files, each checked against the
/// hash that its entry records.
pub open spec fn first_fault(data: Seq<u8>, ix: IndexView, listed: Seq<usize>, n: nat) -> Option<
    Fault,
>
    decreases n,
{
    if n == 0 {
        None
    } else {
        match first_fault(data, ix, listed, (n - 1) as nat) {
            Some(f) => Some(f),
            None => match checked_contents(data, ix.blocks, ix.entries[listed[n - 1] as int]) {
                Err(f) => Some(f),
                Ok(_) => None,
            },
        }
    }
}

/// The positions of all file entries.
pub open spec fn all_files(ix: IndexView) -> Seq<usize> {
    chosen(ix.entries, None, Kind::File, ix.entries.len())
}

/// The first fault among the first `n` blocks.
pub open spec fn first_bad_block(data: Seq<u8>, blocks: Seq<BlockInfo>, n: nat) -> Option<Fault>
    decreases n,
{
    if n == 0 {
        None
    } else {
        match first_bad_block(data, blocks, (n - 1) as nat) {
            Some(f) => Some(f),
            None => match block_contents(data, blocks[n - 1]) {
                Err(f) => Some(f),
                Ok(_) => None,
            },
        }
    }
}

/// Checking an archive comes to this: every file, in block order, then every block
/// that there is. No fault, or the first one.
pub open spec fn verifies_to(data: Seq<u8>, ix: IndexView, outcome: Option<Fault>) -> bool {
    exists|listed: Seq<usize>| #[trigger]
        is_block_order(ix.entries, all_files(ix), listed) && outcome == (match first_fault(
            data,
            ix,
            listed,
            listed.len(),
        ) {
            Some(f) => Some(f),
            None => first_bad_block(data, ix.blocks, ix.blocks.len()),
        })
}

/// Some segment lies in this block.
pub open spec fn lies_in(segments: Seq<Segment>, n: int) -> bool {
    exists|i: int| 0 <= i < segments.len() && (#[trigger] segments[i]).block == n
}

/// Some file lies in this block.
pub open spec fn is_named(ix: IndexView, n: int) -> bool {
    exists|k: int|
        {
            &&& 0 <= k < ix.entries.len()
            &&& (#[trigger] ix.entries[k]).kind == Kind::File
            &&& lies_in(ix.entries[k].segments, n)
        }
}

/// The course of checking the first `n` listed files, given the block that is kept
/// and what the requests were met with. Of every file that it comes to it holds the
/// bytes; the first fault ends it.
pub open spec fn checking(
    kept: Option<(u32, Seq<u8>)>,
    ix: IndexView,
    listed: Seq<usize>,
    n: nat,
    log: Seq<Asked>,
) -> Course
    decreases n,
{
    if n == 0 {
        course_start(kept)
    } else {
        let t = checking(kept, ix, listed, (n - 1) as nat, log);
        if t.fault is Some {
            t
        } else {
            checking_file(t, ix.blocks, ix.entries[listed[n - 1] as int], log)
        }
    }
}

/// One file more.
pub open spec fn checking_file(t: Course, blocks: Seq<BlockInfo>, e: EntryView, log: Seq<Asked>) -> Course {
    let c = course(t.kept, blocks, e.segments, log.skip(t.asked.len() as int));
    Course {
        runs: t.runs.push(joined(c.runs)),
        kept: c.kept,
        asked: t.asked + c.asked,
        fault: match c.fault {
            Some(f) => Some(f),
            None => hash_fault(e.hash, joined(c.runs)),
        },
    }
}

/// The course of decoding, once every file is checked, those of the first `n` blocks
/// in which no file lies.
pub open spec fn leftover(t: Course, ix: IndexView, n: nat, log: Seq<Asked>) -> Course
    decreases n,
{
    if n == 0 {
        t
    } else {
        let u = leftover(t, ix, (n - 1) as nat, log);
        if u.fault is Some || is_named(ix, n - 1) {
            u
        } else {
            let b = ix.blocks[n - 1];
            Course {
                asked: u.asked + place_of(b),
                fault: match answered(b, log[u.asked.len() as int].answer) {
                    Err(f) => Some(f),
                    Ok(_) => None,
                },
                ..u
            }
        }
    }
}

/// The paths of the first `n` listed entries.
pub open spec fn listed_paths(ix: IndexView, listed: Seq<usize>, n: nat) -> Seq<Seq<char>> {
    Seq::new(n, |i: int| ix.entries[listed[i] as int].path)
}

/// An archive was checked in this order of its files: each is told of before it is
/// read, and after the last one every block in which no file lies is decoded. The
/// places that were asked for are those of this course.
pub open spec fn checked_in<S: Source>(
    a: Archive,
    now: Archive,
    before: S,
    after: S,
    listed: Seq<usize>,
    told: Seq<Seq<char>>,
    outcome: Option<Fault>,
) -> bool {
    let ix = a.index@;
    let files = checking(a.cache@, ix, listed, listed.len(), log_of(before, after));
    let all = leftover(files, ix, ix.blocks.len(), log_of(before, after));
    &&& is_block_order(ix.entries, all_files(ix), listed)
    &&& follows(a, now, before, after, all)
    &&& told == listed_paths(ix, listed, files.runs.len())
    &&& outcome == all.fault
}

/// An archive was checked: every file in block order, then every block in which no
/// file lies.
pub open spec fn is_checked<S: Source>(
    a: Archive,
    now: Archive,
    before: S,
    after: S,
    told: Seq<Seq<char>>,
    outcome: Option<Fault>,
) -> bool {
    exists|listed: Seq<usize>| #[trigger]
        checked_in(a, now, before, after, listed, told, outcome)
}

/// Note the blocks that some segments lie in.
fn mark_blocks(seen: &mut Vec<bool>, segments: &Vec<Segment>)
    ensures
        final(seen)@.len() == old(seen)@.len(),
        forall|n: int|
            0 <= n < old(seen)@.len() ==> #[trigger] final(seen)@[n] == (old(seen)@[n] || lies_in(
                segments@,
                n,
            )),
{
    let mut i: usize = 0;
    while i < segments.len()
        invariant
            i <= segments@.len(),
            seen@.len() == old(seen)@.len(),
            forall|n: int|
                0 <= n < old(seen)@.len() ==> #[trigger] seen@[n] == (old(seen)@[n] || lies_in(
                    segments@.take(i as int),
                    n,
                )),
        decreases segments@.len() - i,
    {
        let n: u32 = segments[i].block;
        let ghost was = seen@;
        if (n as u64) < seen.len() as u64 {
            seen[n as usize] = true;
        }
        proof {
            let fewer = segments@.take(i as int);
            let more = segments@.take(i + 1);
            assert(more[i as int].block == n);
            assert forall|m: int| 0 <= m < seen@.len() implies #[trigger] seen@[m] == (
            old(seen)@[m] || lies_in(more, m)) by {
                assert(was[m] == (old(seen)@[m] || lies_in(fewer, m)));
                if lies_in(fewer, m) {
                    let j = choose|j: int| 0 <= j < fewer.len() && (#[trigger] fewer[j]).block == m;
                    assert(more[j] == fewer[j]);
                }
                if lies_in(more, m) && m != n {
                    let j = choose|j: int| 0 <= j < more.len() && (#[trigger] more[j]).block == m;
                    assert(fewer[j] == more[j]);
                }
            }
        }
        i += 1;
    }
    assert(segments@.take(i as int) =~= segments@);
}

proof fn lemma_no_bad_block(data: Seq<u8>, blocks: Seq<BlockInfo>, n: nat, i: int)
    requires
        0 <= i < n,
        first_bad_block(data, blocks, n) is None,
    ensures
        block_contents(data, blocks[i]) is Ok,
    decreases n,
{
    if i + 1 < n {
        lemma_no_bad_block(data, blocks, (n - 1) as nat, i);
    }
}

/// A file that can be read has blocks that decode.
proof fn lemma_file_blocks_decode(
    data: Seq<u8>,
    blocks: Seq<BlockInfo>,
    segments: Seq<Segment>,
    i: int,
)
    requires
        contents(data, blocks, segments) is Ok,
        0 <= i < segments.len(),
        segments[i].block < blocks.len(),
    ensures
        block_contents(data, blocks[segments[i].block as int]) is Ok,
    decreases segments.len(),
{
    if i + 1 < segments.len() {
        lemma_file_blocks_decode(data, blocks, segments.drop_last(), i);
    }
}

/// Checking goes by the requests that it makes, and by no later ones.
proof fn lemma_checking_more(
    kept: Option<(u32, Seq<u8>)>,
    ix: IndexView,
    listed: Seq<usize>,
    n: nat,
    log: Seq<Asked>,
    more: Seq<Asked>,
)
    requires
        checking(kept, ix, listed, n, log).asked.len() <= log.len(),
    ensures
        checking(kept, ix, listed, n, log + more) == checking(kept, ix, listed, n, log),
    decreases n,
{
    if n > 0 {
        let t = checking(kept, ix, listed, (n - 1) as nat, log);
        let e = ix.entries[listed[n - 1] as int];
        lemma_checking_more(kept, ix, listed, (n - 1) as nat, log, more);
        if t.fault is None {
            let a = t.asked.len() as int;
            assert((log + more).skip(a) =~= log.skip(a) + more);
            lemma_course_more(t.kept, ix.blocks, e.segments, log.skip(a), more);
        }
    }
}

/// So does decoding the other blocks.
proof fn lemma_leftover_more(
    t: Course,
    ix: IndexView,
    n: nat,
    log: Seq<Asked>,
    more: Seq<Asked>,
)
    requires
        leftover(t, ix, n, log).asked.len() <= log.len(),
    ensures
        leftover(t, ix, n, log + more) == leftover(t, ix, n, log),
    decreases n,
{
    if n > 0 {
        let u = leftover(t, ix, (n - 1) as nat, log);
        lemma_leftover_more(t, ix, (n - 1) as nat, log, more);
        if u.fault is None && !is_named(ix, n - 1) {
            if codec_of(ix.blocks[n - 1].codec) is Some {
                assert((log + more)[u.asked.len() as int] == log[u.asked.len() as int]);
            }
        }
    }
}

/// These are the places of the requests, of as many as there are places.
spec fn begins(at: Seq<(u64, u64)>, log: Seq<Asked>) -> bool {
    at.is_prefix_of(places(log))
}

/// Where the requests were met from `data`, checking finds the first fault in `data`.
proof fn lemma_checking_true(
    data: Seq<u8>,
    kept: Option<(u32, Seq<u8>)>,
    ix: IndexView,
    listed: Seq<usize>,
    n: nat,
    log: Seq<Asked>,
)
    requires
        met_from(data, log),
        keeps_truth(data, ix.blocks, kept),
        begins(checking(kept, ix, listed, n, log).asked, log),
    ensures
        checking(kept, ix, listed, n, log).fault == first_fault(data, ix, listed, n),
        keeps_truth(data, ix.blocks, checking(kept, ix, listed, n, log).kept),
    decreases n,
{
    if n > 0 {
        let t = checking(kept, ix, listed, (n - 1) as nat, log);
        let all = checking(kept, ix, listed, n, log);
        assert(t.asked.is_prefix_of(all.asked));
        lemma_checking_true(data, kept, ix, listed, (n - 1) as nat, log);
        if t.fault is None {
            let e = ix.entries[listed[n - 1] as int];
            let a = t.asked.len() as int;
            let c = course(t.kept, ix.blocks, e.segments, log.skip(a));
            let own = log.skip(a).take(c.asked.len() as int);
            assert(log.skip(a) =~= own + log.skip(a + c.asked.len()));
            lemma_course_fewer(
                t.kept,
                ix.blocks,
                e.segments,
                own,
                log.skip(a + c.asked.len()),
            );
            assert(places(own) =~= c.asked) by {
                assert forall|i: int| 0 <= i < c.asked.len() implies places(own)[i]
                    == c.asked[i] by {
                    assert(all.asked[a + i] == c.asked[i]);
                    assert(places(log)[a + i] == all.asked[a + i]);
                    assert(own[i] == log[a + i]);
                }
            }
            assert(met_from(data, own)) by {
                assert forall|i: int| 0 <= i < own.len() implies (#[trigger] own[i]).answer == Some(
                    window(data, own[i].offset as int, own[i].len as int),
                ) by {
                    assert(own[i] == log[a + i]);
                }
            }
            law_course_is_contents(data, t.kept, ix.blocks, e.segments, own);
        }
    }
}

/// A course is the same with no more than the requests that it makes.
proof fn lemma_course_fewer(
    kept: Option<(u32, Seq<u8>)>,
    blocks: Seq<BlockInfo>,
    segments: Seq<Segment>,
    log: Seq<Asked>,
    more: Seq<Asked>,
)
    requires
        course(kept, blocks, segments, log + more).asked.len() <= log.len(),
    ensures
        course(kept, blocks, segments, log) == course(kept, blocks, segments, log + more),
    decreases segments.len(),
{
    if segments.len() > 0 {
        let t = course(kept, blocks, segments.drop_last(), log + more);
        let s = segments.last();
        assert(t.asked.len() <= course_step(t, blocks, s, log + more).asked.len());
        lemma_course_fewer(kept, blocks, segments.drop_last(), log, more);
        if t.fault is None && !(t.kept is Some && t.kept->Some_0.0 == s.block) && s.block
            < blocks.len() {
            if codec_of(blocks[s.block as int].codec) is Some {
                assert((log + more)[t.asked.len() as int] == log[t.asked.len() as int]);
            }
        }
    }
}

/// Where the requests were met from `data`, and every file passes there, decoding the
/// other blocks finds the first bad block in `data`.
proof fn lemma_leftover_true(
    data: Seq<u8>,
    t: Course,
    ix: IndexView,
    listed: Seq<usize>,
    n: nat,
    log: Seq<Asked>,
)
    requires
        met_from(data, log),
        t.fault is None,
        ix.entries.len() <= usize::MAX,
        is_block_order(ix.entries, all_files(ix), listed),
        first_fault(data, ix, listed, listed.len()) is None,
        n <= ix.blocks.len(),
        begins(leftover(t, ix, n, log).asked, log),
    ensures
        leftover(t, ix, n, log).fault == first_bad_block(data, ix.blocks, n),
        leftover(t, ix, n, log).kept == t.kept,
    decreases n,
{
    if n > 0 {
        let u = leftover(t, ix, (n - 1) as nat, log);
        let all = leftover(t, ix, n, log);
        assert(u.asked.is_prefix_of(all.asked));
        lemma_leftover_true(data, t, ix, listed, (n - 1) as nat, log);
        if u.fault is None {
            if is_named(ix, n - 1) {
                let k = choose|k: int|
                    {
                        &&& 0 <= k < ix.entries.len()
                        &&& (#[trigger] ix.entries[k]).kind == Kind::File
                        &&& lies_in(ix.entries[k].segments, n - 1)
                    };
                let segments = ix.entries[k].segments;
                let i = choose|i: int|
                    0 <= i < segments.len() && (#[trigger] segments[i]).block == n - 1;
                lemma_listed_file(data, ix, listed, k as usize);
                lemma_file_blocks_decode(data, ix.blocks, segments, i);
            } else {
                let b = ix.blocks[n - 1];
                let a = u.asked.len() as int;
                if codec_of(b.codec) is Some {
                    assert(all.asked[a] == (b.offset, b.clen));
                    assert(places(log)[a] == all.asked[a]);
                    assert(log[a].answer == Some(window(data, b.offset as int, b.clen as int)));
                }
            }
        }
    }
}

/// Of a file among those that all pass.
proof fn lemma_listed_file(data: Seq<u8>, ix: IndexView, listed: Seq<usize>, k: usize)
    requires
        ix.entries.len() <= usize::MAX,
        is_block_order(ix.entries, all_files(ix), listed),
        first_fault(data, ix, listed, listed.len()) is None,
        k < ix.entries.len(),
        ix.entries[k as int].kind == Kind::File,
    ensures
        checked_contents(data, ix.blocks, ix.entries[k as int]) is Ok,
{
    lemma_chosen(ix.entries, None, Kind::File, ix.entries.len());
    law_block_order(ix.entries, all_files(ix), listed);
    assert(all_files(ix).contains(k));
    assert(listed.contains(k));
    let i = choose|i: int| 0 <= i < listed.len() && listed[i] == k;
    lemma_no_fault_before(data, ix, listed, listed.len(), i as nat);
}

proof fn lemma_no_fault_before(data: Seq<u8>, ix: IndexView, listed: Seq<usize>, n: nat, i: nat)
    requires
        i < n,
        first_fault(data, ix, listed, n) is None,
    ensures
        checked_contents(data, ix.blocks, ix.entries[listed[i as int] as int]) is Ok,
    decreases n,
{
    if i + 1 < n {
        lemma_no_fault_before(data, ix, listed, (n - 1) as nat, i);
    }
}

/// Checking covers everything: an archive in which no fault is found has every
/// file's bytes, under the hash that its entry records.
pub proof fn law_verify_covers_every_file(data: Seq<u8>, ix: IndexView, k: usize)
    requires
        verifies_to(data, ix, None),
        ix.entries.len() <= usize::MAX,
        k < ix.entries.len(),
        ix.entries[k as int].kind == Kind::File,
    ensures
        checked_contents(data, ix.blocks, ix.entries[k as int]) is Ok,
{
    let listed = choose|listed: Seq<usize>| #[trigger]
        is_block_order(ix.entries, all_files(ix), listed) && first_fault(
            data,
            ix,
            listed,
            listed.len(),
        ) is None;
    lemma_listed_file(data, ix, listed, k);
}

/// Checking covers everything: in an archive in which no fault is found every block
/// decodes, whether or not a file lies in it.
pub proof fn law_verify_covers_every_block(data: Seq<u8>, ix: IndexView, n: int)
    requires
        verifies_to(data, ix, None),
        0 <= n < ix.blocks.len(),
    ensures
        block_contents(data, ix.blocks[n]) is Ok,
{
    lemma_no_bad_block(data, ix.blocks, ix.blocks.len(), n);
}

/// A fault ends the checking of files, and no other block is decoded then.
proof fn lemma_checking_ends(
    kept: Option<(u32, Seq<u8>)>,
    ix: IndexView,
    listed: Seq<usize>,
    n: nat,
    log: Seq<Asked>,
)
    requires
        n <= listed.len(),
        checking(kept, ix, listed, n, log).fault is Some,
    ensures
        checking(kept, ix, listed, listed.len(), log) == checking(kept, ix, listed, n, log),
    decreases listed.len() - n,
{
    if n < listed.len() {
        lemma_checking_ends(kept, ix, listed, n + 1, log);
    }
}

proof fn lemma_leftover_ends(t: Course, ix: IndexView, n: nat, m: nat, log: Seq<Asked>)
    requires
        n <= m,
        leftover(t, ix, n, log).fault is Some,
    ensures
        leftover(t, ix, m, log) == leftover(t, ix, n, log),
    decreases m,
{
    if n < m {
        lemma_leftover_ends(t, ix, n, (m - 1) as nat, log);
    }
}

proof fn lemma_checking_comes_to(
    kept: Option<(u32, Seq<u8>)>,
    ix: IndexView,
    listed: Seq<usize>,
    n: nat,
    log: Seq<Asked>,
)
    ensures
        checking(kept, ix, listed, n, log).runs.len() <= n,
        checking(kept, ix, listed, n, log).fault is None ==> checking(
            kept,
            ix,
            listed,
            n,
            log,
        ).runs.len() == n,
    decreases n,
{
    if n > 0 {
        lemma_checking_comes_to(kept, ix, listed, (n - 1) as nat, log);
    }
}

/// Checking tells of each file once: in an archive in which nothing is wrong, of every file
/// and of nothing else, and in any other of no file twice.
pub proof fn law_each_file_is_told_once<S: Source>(
    a: Archive,
    now: Archive,
    before: S,
    after: S,
    listed: Seq<usize>,
    told: Seq<Seq<char>>,
    outcome: Option<Fault>,
)
    requires
        a.index@.entries.len() <= usize::MAX,
        checked_in(a, now, before, after, listed, told, outcome),
    ensures
        listed.no_duplicates(),
        forall|k: usize| #[trigger]
            listed.contains(k) <==> k < a.index@.entries.len() && a.index@.entries[k as int].kind
                == Kind::File,
        told.len() <= listed.len(),
        forall|i: int|
            0 <= i < told.len() ==> #[trigger] told[i] == a.index@.entries[listed[i] as int].path,
        outcome is None ==> told.len() == listed.len(),
{
    let ix = a.index@;
    let log = log_of(before, after);
    let files = checking(a.cache@, ix, listed, listed.len(), log);
    lemma_chosen(ix.entries, None, Kind::File, ix.entries.len());
    law_chosen_once(ix.entries, None, Kind::File, ix.entries.len());
    law_block_order(ix.entries, all_files(ix), listed);
    assert(all_files(ix).no_duplicates()) by {
        let at = all_files(ix);
        assert forall|i: int, j: int|
            0 <= i < at.len() && 0 <= j < at.len() && i != j implies at[i] != at[j] by {
            let all = chosen(ix.entries, None, Kind::File, ix.entries.len());
            if i < j {
                assert(all[i] < all[j]);
            } else {
                assert(all[j] < all[i]);
            }
        }
    }
    lemma_checking_comes_to(a.cache@, ix, listed, listed.len(), log);
    if files.fault is Some {
        lemma_leftover_ends(files, ix, 0, ix.blocks.len(), log);
    }
}

/// One file more was checked.
proof fn lemma_next_checked<S: Source>(
    a0: Archive,
    a1: Archive,
    a2: Archive,
    s0: S,
    s1: S,
    s2: S,
    listed: Seq<usize>,
    n: nat,
)
    requires
        n < listed.len(),
        follows(a0, a1, s0, s1, checking(a0.cache@, a0.index@, listed, n, log_of(s0, s1))),
        checking(a0.cache@, a0.index@, listed, n, log_of(s0, s1)).fault is None,
        follows(
            a1,
            a2,
            s1,
            s2,
            course(
                a1.cache@,
                a1.index.blocks@,
                a0.index@.entries[listed[n as int] as int].segments,
                log_of(s1, s2),
            ),
        ),
    ensures
        ({
            let was = checking(a0.cache@, a0.index@, listed, n, log_of(s0, s1));
            let t = checking(a0.cache@, a0.index@, listed, n + 1, log_of(s0, s2));
            let e = a0.index@.entries[listed[n as int] as int];
            let c = course(a1.cache@, a1.index.blocks@, e.segments, log_of(s1, s2));
            &&& follows(a0, a2, s0, s2, t)
            &&& t.runs == was.runs.push(joined(c.runs))
            &&& t.fault == match c.fault {
                Some(f) => Some(f),
                None => hash_fault(e.hash, joined(c.runs)),
            }
        }),
{
    let ix = a0.index@;
    let was = checking(a0.cache@, ix, listed, n, log_of(s0, s1));
    let e = ix.entries[listed[n as int] as int];
    let c = course(a1.cache@, a1.index.blocks@, e.segments, log_of(s1, s2));
    lemma_asked_on(s0, s1, s2, was.asked, c.asked);
    assert(places(log_of(s0, s1)).len() == log_of(s0, s1).len());
    lemma_checking_more(a0.cache@, ix, listed, n, log_of(s0, s1), log_of(s1, s2));
    assert(log_of(s0, s2).skip(was.asked.len() as int) =~= log_of(s1, s2));
}

/// One block more was decoded, in which no file lies.
proof fn lemma_next_leftover<S: Source>(
    a0: Archive,
    a1: Archive,
    s0: S,
    s1: S,
    s2: S,
    listed: Seq<usize>,
    n: nat,
)
    requires
        n < a0.index@.blocks.len(),
        !is_named(a0.index@, n as int),
        ({
            let t = checking(a0.cache@, a0.index@, listed, listed.len(), log_of(s0, s1));
            &&& t.asked.len() <= log_of(s0, s1).len()
            &&& follows(a0, a1, s0, s1, leftover(t, a0.index@, n, log_of(s0, s1)))
            &&& leftover(t, a0.index@, n, log_of(s0, s1)).fault is None
        }),
        asked_for(s1.asked(), s2.asked(), place_of(a0.index@.blocks[n as int])),
        stays_true(s1, s2),
    ensures
        ({
            let t = checking(a0.cache@, a0.index@, listed, listed.len(), log_of(s0, s1));
            let all = leftover(t, a0.index@, n + 1, log_of(s0, s2));
            &&& checking(a0.cache@, a0.index@, listed, listed.len(), log_of(s0, s2)) == t
            &&& t.asked.len() <= log_of(s0, s2).len()
            &&& follows(a0, a1, s0, s2, all)
            &&& all.fault == match answered(
                a0.index@.blocks[n as int],
                s2.asked().last().answer,
            ) {
                Err(f) => Some(f),
                Ok(_) => None,
            }
        }),
{
    let ix = a0.index@;
    let b = ix.blocks[n as int];
    let t = checking(a0.cache@, ix, listed, listed.len(), log_of(s0, s1));
    let u = leftover(t, ix, n, log_of(s0, s1));
    lemma_asked_on(s0, s1, s2, u.asked, place_of(b));
    assert(places(log_of(s0, s1)).len() == log_of(s0, s1).len());
    lemma_checking_more(a0.cache@, ix, listed, listed.len(), log_of(s0, s1), log_of(s1, s2));
    lemma_leftover_more(t, ix, n, log_of(s0, s1), log_of(s1, s2));
    lemma_place(b, s1, s2);
    if codec_of(b.codec) is Some {
        assert(log_of(s0, s2)[u.asked.len() as int] == s2.asked().last());
    }
}

/// What checking an archive came to, for any archive that the source holds.
proof fn lemma_checked_true<S: Source>(
    a: Archive,
    now: Archive,
    before: S,
    after: S,
    told: Seq<Seq<char>>,
    outcome: Option<Fault>,
)
    requires
        a.index@.entries.len() <= usize::MAX,
        is_checked(a, now, before, after, told, outcome),
    ensures
        forall|data: Seq<u8>| #[trigger]
            before.holds(data) && a.coherent(data) ==> now.coherent(data) && verifies_to(
                data,
                a.index@,
                outcome,
            ),
{
    let ix = a.index@;
    let log = log_of(before, after);
    let listed = choose|listed: Seq<usize>| #[trigger]
        checked_in(a, now, before, after, listed, told, outcome);
    let files = checking(a.cache@, ix, listed, listed.len(), log);
    let all = leftover(files, ix, ix.blocks.len(), log);
    assert forall|data: Seq<u8>| #[trigger] before.holds(data) && a.coherent(data) implies
    now.coherent(data) && verifies_to(data, ix, outcome) by {
        lemma_leftover_extends(files, ix, ix.blocks.len(), log);
        lemma_checking_true(data, a.cache@, ix, listed, listed.len(), log);
        if files.fault is Some {
            lemma_leftover_ends(files, ix, 0, ix.blocks.len(), log);
        } else {
            lemma_leftover_true(data, files, ix, listed, ix.blocks.len(), log);
        }
    }
}

proof fn lemma_leftover_extends(t: Course, ix: IndexView, n: nat, log: Seq<Asked>)
    ensures
        t.asked.is_prefix_of(leftover(t, ix, n, log).asked),
        leftover(t, ix, n, log).kept == t.kept,
    decreases n,
{
    if n > 0 {
        lemma_leftover_extends(t, ix, (n - 1) as nat, log);
    }
}

/// The first `n` listed files lie in this block, one of them or more.
spec fn seen_in(ix: IndexView, listed: Seq<usize>, n: int, b: int) -> bool {
    exists|i: int| 0 <= i < n && lies_in(ix.entries[#[trigger] listed[i] as int].segments, b)
}

/// All the files, listed in any order, lie in the blocks in which files lie.
proof fn lemma_seen_all(ix: IndexView, listed: Seq<usize>, b: int)
    requires
        ix.entries.len() <= usize::MAX,
        is_block_order(ix.entries, all_files(ix), listed),
    ensures
        seen_in(ix, listed, listed.len() as int, b) == is_named(ix, b),
{
    lemma_chosen(ix.entries, None, Kind::File, ix.entries.len());
    law_block_order(ix.entries, all_files(ix), listed);
    if seen_in(ix, listed, listed.len() as int, b) {
        let i = choose|i: int|
            0 <= i < listed.len() && lies_in(ix.entries[#[trigger] listed[i] as int].segments, b);
        assert(listed.contains(listed[i]));
        assert(all_files(ix).contains(listed[i]));
        assert(ix.entries[listed[i] as int].kind == Kind::File);
    }
    if is_named(ix, b) {
        let k = choose|k: int|
            {
                &&& 0 <= k < ix.entries.len()
                &&& (#[trigger] ix.entries[k]).kind == Kind::File
                &&& lies_in(ix.entries[k].segments, b)
            };
        assert(all_files(ix).contains(k as usize));
        assert(listed.contains(k as usize));
        let i = choose|i: int| 0 <= i < listed.len() && listed[i] == k as usize;
        assert(lies_in(ix.entries[listed[i] as int].segments, b));
    }
}

impl Archive {
    /// Check every file against the hash that its entry records, in block order.
    /// Returns the order, and for each block whether a file lies in it.
    fn verify_files<S: Source, P: Progress>(&mut self, source: &mut S, progress: &mut P) -> (r:
        Result<(Vec<usize>, Vec<bool>), Error>)
        ensures
            match r {
                Ok((files, seen)) => {
                    let ix = old(self).index@;
                    let t = checking(
                        old(self).cache@,
                        ix,
                        files@,
                        files@.len(),
                        log_of(*old(source), *final(source)),
                    );
                    &&& ix.entries.len() <= usize::MAX
                    &&& is_block_order(ix.entries, all_files(ix), files@)
                    &&& files@.len() == all_files(ix).len()
                    &&& t.fault is None
                    &&& t.runs.len() == files@.len()
                    &&& follows(*old(self), *final(self), *old(source), *final(source), t)
                    &&& final(progress).told() == old(progress).told() + listed_paths(
                        ix,
                        files@,
                        files@.len(),
                    )
                    &&& seen@.len() == ix.blocks.len()
                    &&& forall|n: int|
                        0 <= n < seen@.len() ==> #[trigger] seen@[n] == is_named(ix, n)
                },
                Err(e) => {
                    &&& old(self).index@.entries.len() <= usize::MAX
                    &&& old(progress).told().is_prefix_of(final(progress).told())
                    &&& is_checked(
                        *old(self),
                        *final(self),
                        *old(source),
                        *final(source),
                        since(final(progress).told(), old(progress).told().len()),
                        Some(e.fault),
                    )
                },
            },
    {
        let ghost ix = self.index@;
        let ghost kept = self.cache@;
        let at = choose_entries(&self.index.entries, &None, Kind::File);
        let count: usize = self.index.entries.len();
        proof {
            assert(ix.entries.len() == count);
            lemma_chosen(ix.entries, None, Kind::File, ix.entries.len());
            assert(filter_view(None) == None::<Seq<Seq<char>>>);
        }
        let files = in_block_order(&self.index.entries, &at);
        let len: usize = files.len();
        proof {
            law_block_order(ix.entries, at@, files@);
            assert forall|i: int| 0 <= i < files@.len() implies #[trigger] files@[i]
                < ix.entries.len() && ix.entries[files@[i] as int].kind == Kind::File by {
                assert(files@.contains(files@[i]));
                assert(at@.contains(files@[i]));
            }
            lemma_nothing_asked(*source);
            assert(progress.told() =~= old(progress).told() + listed_paths(ix, files@, 0));
        }
        let mut seen: Vec<bool> = Vec::new();
        while seen.len() < self.index.blocks.len()
            invariant
                seen@.len() <= self.index.blocks@.len(),
                forall|n: int| 0 <= n < seen@.len() ==> !#[trigger] seen@[n],
            decreases self.index.blocks@.len() - seen@.len(),
        {
            seen.push(false);
        }
        let mut i: usize = 0;
        while i < len
            invariant
                ix == self.index@,
                ix == old(self).index@,
                ix.entries.len() <= usize::MAX,
                kept == old(self).cache@,
                i <= len == files@.len(),
                at@ == all_files(ix),
                is_block_order(ix.entries, at@, files@),
                forall|j: int|
                    0 <= j < files@.len() ==> #[trigger] files@[j] < ix.entries.len()
                        && ix.entries[files@[j] as int].kind == Kind::File,
                follows(
                    *old(self),
                    *self,
                    *old(source),
                    *source,
                    checking(kept, ix, files@, i as nat, log_of(*old(source), *source)),
                ),
                checking(kept, ix, files@, i as nat, log_of(*old(source), *source)).fault is None,
                checking(kept, ix, files@, i as nat, log_of(*old(source), *source)).runs.len() == i,
                progress.told() == old(progress).told() + listed_paths(ix, files@, i as nat),
                seen@.len() == ix.blocks.len(),
                forall|n: int|
                    0 <= n < seen@.len() ==> #[trigger] seen@[n] == seen_in(
                        ix,
                        files@,
                        i as int,
                        n,
                    ),
            decreases len - i,
        {
            assert(files@[i as int] < ix.entries.len());
            let k: usize = files[i];
            let ghost e = ix.entries[k as int];
            assert(e == self.index.entries@[k as int]@);
            progress.tell(self.index.entries[k].path.as_str());
            let segments = copy_segments(&self.index.entries[k].segments);
            let hash = self.index.entries[k].hash;
            let ghost (a1, s1) = (*self, *source);
            let hashed = self.hash_contents(&segments, source);
            let ghost log = log_of(*old(source), *source);
            let ghost t = checking(kept, ix, files@, (i + 1) as nat, log);
            proof {
                lemma_next_checked(
                    *old(self),
                    a1,
                    *self,
                    *old(source),
                    s1,
                    *source,
                    files@,
                    i as nat,
                );
                assert(listed_paths(ix, files@, (i + 1) as nat) =~= listed_paths(
                    ix,
                    files@,
                    i as nat,
                ).push(e.path));
                assert(progress.told() =~= old(progress).told() + listed_paths(
                    ix,
                    files@,
                    (i + 1) as nat,
                ));
            }
            let checked = match hashed {
                Ok(hasher) => check_hash(&hash, &hasher),
                Err(e) => Err(e),
            };
            match checked {
                Ok(()) => {
                    let ghost was = seen@;
                    mark_blocks(&mut seen, &segments);
                    proof {
                        assert forall|n: int| 0 <= n < seen@.len() implies #[trigger] seen@[n]
                            == seen_in(ix, files@, i + 1, n) by {
                            assert(seen@[n] == (was[n] || lies_in(e.segments, n)));
                            if seen_in(ix, files@, i as int, n) {
                                let j = choose|j: int|
                                    0 <= j < i && lies_in(
                                        ix.entries[#[trigger] files@[j] as int].segments,
                                        n,
                                    );
                                assert(lies_in(ix.entries[files@[j] as int].segments, n));
                            }
                            assert(files@[i as int] == k);
                        }
                    }
                },
                Err(x) => {
                    proof {
                        assert(t.fault == Some(x.fault));
                        lemma_checking_ends(kept, ix, files@, (i + 1) as nat, log);
                        lemma_leftover_ends(t, ix, 0, ix.blocks.len(), log);
                        assert(since(progress.told(), old(progress).told().len()) =~= listed_paths(
                            ix,
                            files@,
                            (i + 1) as nat,
                        ));
                        assert(checked_in(
                            *old(self),
                            *self,
                            *old(source),
                            *source,
                            files@,
                            since(progress.told(), old(progress).told().len()),
                            Some(x.fault),
                        ));
                    }
                    return Err(x);
                },
            }
            i += 1;
        }
        proof {
            assert forall|n: int| 0 <= n < seen@.len() implies #[trigger] seen@[n] == is_named(
                ix,
                n,
            ) by {
                assert(seen@[n] == seen_in(ix, files@, len as int, n));
                lemma_seen_all(ix, files@, n);
            }
        }
        Ok((files, seen))
    }

    /// Decode every block and re-hash every file, without writing anything.
    /// Returns the number of files.
    pub fn verify<S: Source, P: Progress>(&mut self, source: &mut S, progress: &mut P) -> (r: Result<
        u64,
        Error,
    >)
        ensures
            old(progress).told().is_prefix_of(final(progress).told()),
            is_checked(
                *old(self),
                *final(self),
                *old(source),
                *final(source),
                since(final(progress).told(), old(progress).told().len()),
                match r {
                    Ok(_) => None,
                    Err(e) => Some(e.fault),
                },
            ),
            r matches Ok(n) ==> {
                &&& n == all_files(old(self).index@).len()
                &&& final(progress).told().len() == old(progress).told().len() + n
            },
            forall|data: Seq<u8>| #[trigger]
                old(source).holds(data) && old(self).coherent(data) ==> {
                    &&& final(self).coherent(data)
                    &&& match r {
                        Ok(n) => verifies_to(data, old(self).index@, None),
                        Err(e) => verifies_to(data, old(self).index@, Some(e.fault)),
                    }
                },
    {
        let ghost ix = self.index@;
        let ghost kept = self.cache@;
        let found = self.verify_files(source, progress);
        let (files, seen) = match found {
            Ok(found) => found,
            Err(e) => {
                proof {
                    lemma_checked_true(
                        *old(self),
                        *self,
                        *old(source),
                        *source,
                        since(progress.told(), old(progress).told().len()),
                        Some(e.fault),
                    );
                }
                return Err(e);
            },
        };
        let ghost t = checking(
            kept,
            ix,
            files@,
            files@.len(),
            log_of(*old(source), *source),
        );
        proof {
            assert(since(progress.told(), old(progress).told().len()) =~= listed_paths(
                ix,
                files@,
                files@.len(),
            ));
        }
        let blocks: usize = self.index.blocks.len();
        let mut n: usize = 0;
        while n < blocks
            invariant
                ix == self.index@,
                ix == old(self).index@,
                ix.entries.len() <= usize::MAX,
                kept == old(self).cache@,
                blocks == ix.blocks.len() == seen@.len(),
                n <= blocks,
                is_block_order(ix.entries, all_files(ix), files@),
                t == checking(kept, ix, files@, files@.len(), log_of(*old(source), *source)),
                t.fault is None,
                t.runs.len() == files@.len(),
                forall|m: int| 0 <= m < seen@.len() ==> #[trigger] seen@[m] == is_named(ix, m),
                follows(
                    *old(self),
                    *self,
                    *old(source),
                    *source,
                    leftover(t, ix, n as nat, log_of(*old(source), *source)),
                ),
                leftover(t, ix, n as nat, log_of(*old(source), *source)).fault is None,
                t.asked.len() <= log_of(*old(source), *source).len(),
                old(progress).told().is_prefix_of(progress.told()),
                since(progress.told(), old(progress).told().len()) == listed_paths(
                    ix,
                    files@,
                    files@.len(),
                ),
            decreases blocks - n,
        {
            if !seen[n] {
                let info = self.index.blocks[n];
                let ghost s1 = *source;
                let loaded = load_block(&info, source);
                let ghost log = log_of(*old(source), *source);
                let ghost all = leftover(t, ix, (n + 1) as nat, log);
                proof {
                    lemma_next_leftover(
                        *old(self),
                        *self,
                        *old(source),
                        s1,
                        *source,
                        files@,
                        n as nat,
                    );
                }
                match loaded {
                    Ok(_) => {},
                    Err(e) => {
                        proof {
                            assert(all.fault == Some(e.fault));
                            lemma_leftover_ends(t, ix, (n + 1) as nat, ix.blocks.len(), log);
                            assert(checked_in(
                            *old(self),
                            *self,
                            *old(source),
                            *source,
                            files@,
                            since(progress.told(), old(progress).told().len()),
                            Some(e.fault),
                        ));
                            lemma_checked_true(
                                *old(self),
                                *self,
                                *old(source),
                                *source,
                                since(progress.told(), old(progress).told().len()),
                                Some(e.fault),
                            );
                        }
                        return Err(e);
                    },
                }
            }
            n += 1;
        }
        proof {
            assert(checked_in(
                            *old(self),
                            *self,
                            *old(source),
                            *source,
                            files@,
                            since(progress.told(), old(progress).told().len()),
                            None,
                        ));
            lemma_checked_true(
                *old(self),
                *self,
                *old(source),
                *source,
                since(progress.told(), old(progress).told().len()),
                None,
            );
        }
        Ok(files.len() as u64)
    }

    /// Total uncompressed size of all file entries, counting deduplicated files
    /// at full size: this is what the user gets back on disk.
    pub fn total_size(&self) -> (n: u64)
        requires
            file_bytes(self.index@.entries) <= u64::MAX,
        ensures
            n == file_bytes(self.index@.entries),
    {
        match self.checked_total_size() {
            Some(n) => n,
            None => vstd::pervasive::unreached(),
        }
    }

    /// Total uncompressed size of all file entries, if it can be said in 64 bits.
    pub fn checked_total_size(&self) -> (r: Option<u64>)
        ensures
            match r {
                Some(n) => n == file_bytes(self.index@.entries),
                None => file_bytes(self.index@.entries) > u64::MAX,
            },
    {
        let ghost views = self.index@.entries;
        let mut n: u64 = 0;
        let mut i: usize = 0;
        assert(views.take(0) =~= Seq::<EntryView>::empty());
        while i < self.index.entries.len()
            invariant
                i <= self.index.entries@.len(),
                views == self.index@.entries,
                n == file_bytes(views.take(i as int)),
            decreases self.index.entries@.len() - i,
        {
            proof {
                assert(views.take(i + 1).drop_last() =~= views.take(i as int));
                assert(views.take(i + 1).last() == self.index.entries@[i as int]@);
                lemma_file_bytes_take(views, i + 1);
            }
            if self.index.entries[i].kind == Kind::File {
                match n.checked_add(self.index.entries[i].size) {
                    Some(sum) => {
                        n = sum;
                    },
                    None => {
                        return None;
                    },
                }
            }
            i += 1;
        }
        assert(views.take(i as int) =~= views);
        Some(n)
    }
}

/// The sum of the sizes of all file entries.
pub open spec fn file_bytes(entries: Seq<EntryView>) -> nat
    decreases entries.len(),
{
    if entries.len() == 0 {
        0
    } else {
        file_bytes(entries.drop_last()) + if entries.last().kind == Kind::File {
            entries.last().size as nat
        } else {
            0
        }
    }
}

proof fn lemma_file_bytes_take(entries: Seq<EntryView>, n: int)
    requires
        0 <= n <= entries.len(),
    ensures
        file_bytes(entries.take(n)) <= file_bytes(entries),
    decreases entries.len() - n,
{
    if n < entries.len() {
        assert(entries.take(n + 1).drop_last() =~= entries.take(n));
        lemma_file_bytes_take(entries, n + 1);
    } else {
        assert(entries.take(n) =~= entries);
    }
}

} // verus!
