//! The course of reading segments: which blocks were asked for, and what came of
//! the bytes that were handed over.
//!
//! Nothing is assumed of the source here. Given what it handed over, request by
//! request, a course says everything else: the places that are asked for, the
//! runs of bytes that are found, the block that is kept, and the fault that ends
//! it.

use vstd::prelude::*;

use crate::codec::{codec_of, decoded_block};
use crate::contents::{contents, numbered_block, segment_contents, segment_of_block};
use crate::error::Fault;
use crate::index::{BlockInfo, Segment};
use crate::stream::{joined, lemma_joined_push, met_from, places, window, Asked};

verus! {

/// What reading some segments, one by one, comes to.
#[verifier::ext_equal]
pub struct Course {
    /// The bytes that the segments name, segment by segment.
    pub runs: Seq<Seq<u8>>,
    /// The block that is kept decoded.
    pub kept: Option<(u32, Seq<u8>)>,
    /// The places that are asked for.
    pub asked: Seq<(u64, u64)>,
    /// Why it ends early, if it does.
    pub fault: Option<Fault>,
}

/// What comes of a stored block, by what was handed over for it.
pub open spec fn answered(b: BlockInfo, answer: Option<Seq<u8>>) -> Result<Seq<u8>, Fault> {
    match codec_of(b.codec) {
        None => Err(Fault::UnknownCodec(b.codec)),
        Some(codec) => match answer {
            None => Err(Fault::Source),
            Some(raw) => decoded_block(codec, raw, b.rlen),
        },
    }
}

/// The place that is asked for when a block is read: none, if its codec is unknown.
pub open spec fn place_of(b: BlockInfo) -> Seq<(u64, u64)> {
    match codec_of(b.codec) {
        None => Seq::empty(),
        Some(_) => seq![(b.offset, b.clen)],
    }
}

/// A course that has not begun.
pub open spec fn course_start(kept: Option<(u32, Seq<u8>)>) -> Course {
    Course { runs: Seq::empty(), kept, asked: Seq::empty(), fault: None }
}

/// With the block at hand, the segment's bytes are found in it.
pub open spec fn course_found(t: Course, s: Segment, decoded: Seq<u8>) -> Course {
    match segment_of_block(decoded, s) {
        Err(f) => Course { fault: Some(f), ..t },
        Ok(run) => Course { runs: t.runs.push(run), ..t },
    }
}

/// One segment more. The block that is kept serves without a request; any other
/// is asked for, and kept once it is decoded.
pub open spec fn course_step(t: Course, blocks: Seq<BlockInfo>, s: Segment, log: Seq<Asked>) -> Course {
    if t.fault is Some {
        t
    } else if t.kept is Some && t.kept->Some_0.0 == s.block {
        course_found(t, s, t.kept->Some_0.1)
    } else if s.block >= blocks.len() {
        Course { fault: Some(Fault::MissingBlock(s.block)), ..t }
    } else {
        let b = blocks[s.block as int];
        let asked = t.asked + place_of(b);
        match answered(b, log[t.asked.len() as int].answer) {
            Err(f) => Course { asked, fault: Some(f), ..t },
            Ok(d) => course_found(Course { asked, kept: Some((s.block, d)), ..t }, s, d),
        }
    }
}

/// The course of reading some segments in order, given the block that is kept and
/// what the requests were met with. The first fault ends it.
pub open spec fn course(
    kept: Option<(u32, Seq<u8>)>,
    blocks: Seq<BlockInfo>,
    segments: Seq<Segment>,
    log: Seq<Asked>,
) -> Course
    decreases segments.len(),
{
    if segments.len() == 0 {
        course_start(kept)
    } else {
        course_step(course(kept, blocks, segments.drop_last(), log), blocks, segments.last(), log)
    }
}

/// The bytes that a course finds, or the fault that ends it.
pub open spec fn course_outcome(t: Course) -> Result<Seq<u8>, Fault> {
    match t.fault {
        Some(f) => Err(f),
        None => Ok(joined(t.runs)),
    }
}

/// One course, and then another.
pub open spec fn course_on(t: Course, more: Course) -> Course {
    Course {
        runs: t.runs + more.runs,
        kept: more.kept,
        asked: t.asked + more.asked,
        fault: more.fault,
    }
}

/// What is kept decoded is what the block decodes to.
pub open spec fn keeps_truth(
    data: Seq<u8>,
    blocks: Seq<BlockInfo>,
    kept: Option<(u32, Seq<u8>)>,
) -> bool {
    kept matches Some((n, d)) ==> numbered_block(data, blocks, n) == Ok::<Seq<u8>, Fault>(d)
}

/// A course goes by the requests that it makes, and by no later ones.
pub proof fn lemma_course_more(
    kept: Option<(u32, Seq<u8>)>,
    blocks: Seq<BlockInfo>,
    segments: Seq<Segment>,
    log: Seq<Asked>,
    more: Seq<Asked>,
)
    requires
        course(kept, blocks, segments, log).asked.len() <= log.len(),
    ensures
        course(kept, blocks, segments, log + more) == course(kept, blocks, segments, log),
    decreases segments.len(),
{
    if segments.len() > 0 {
        let t = course(kept, blocks, segments.drop_last(), log);
        let s = segments.last();
        assert(t.asked.len() <= course_step(t, blocks, s, log).asked.len());
        lemma_course_more(kept, blocks, segments.drop_last(), log, more);
        if t.fault is None && !(t.kept is Some && t.kept->Some_0.0 == s.block) && s.block
            < blocks.len() {
            let b = blocks[s.block as int];
            if codec_of(b.codec) is Some {
                assert(t.asked.len() < log.len());
                assert((log + more)[t.asked.len() as int] == log[t.asked.len() as int]);
            }
        }
    }
}

/// The course of one segment more, as the course so far and then the segment's own.
pub proof fn lemma_course_step(
    kept: Option<(u32, Seq<u8>)>,
    blocks: Seq<BlockInfo>,
    segments: Seq<Segment>,
    n: int,
    log: Seq<Asked>,
    more: Seq<Asked>,
)
    requires
        0 <= n < segments.len(),
        places(log) == course(kept, blocks, segments.take(n), log).asked,
        course(kept, blocks, segments.take(n), log).fault is None,
        places(more) == course_step(
            course_start(course(kept, blocks, segments.take(n), log).kept),
            blocks,
            segments[n],
            more,
        ).asked,
    ensures
        course(kept, blocks, segments.take(n + 1), log + more) == course_on(
            course(kept, blocks, segments.take(n), log),
            course_step(
                course_start(course(kept, blocks, segments.take(n), log).kept),
                blocks,
                segments[n],
                more,
            ),
        ),
{
    let t = course(kept, blocks, segments.take(n), log);
    let s = segments[n];
    assert(log.len() == places(log).len());
    lemma_course_more(kept, blocks, segments.take(n), log, more);
    assert(segments.take(n + 1).drop_last() =~= segments.take(n));
    assert(segments.take(n + 1).last() == s);
    let one = course_step(course_start(t.kept), blocks, s, more);
    let all = course_step(t, blocks, s, log + more);
    assert(more.len() == places(more).len());
    assert(more.len() > 0 ==> (log + more)[t.asked.len() as int] == more[0]);
    assert(all =~= course_on(t, one));
}

/// Where the requests were met from `data`, a course finds what the segments hold
/// in `data`, and the block that it keeps is true.
pub proof fn law_course_is_contents(
    data: Seq<u8>,
    kept: Option<(u32, Seq<u8>)>,
    blocks: Seq<BlockInfo>,
    segments: Seq<Segment>,
    log: Seq<Asked>,
)
    requires
        met_from(data, log),
        keeps_truth(data, blocks, kept),
        places(log) == course(kept, blocks, segments, log).asked,
    ensures
        course_outcome(course(kept, blocks, segments, log)) == contents(data, blocks, segments),
        keeps_truth(data, blocks, course(kept, blocks, segments, log).kept),
{
    let t = course(kept, blocks, segments, log);
    assert forall|i: int| 0 <= i < t.asked.len() implies #[trigger] t.asked[i] == (
        log[i].offset,
        log[i].len,
    ) by {
        assert(t.asked[i] == places(log)[i]);
    }
    assert(log.len() == places(log).len());
    lemma_course_true(data, kept, blocks, segments, log);
}

proof fn lemma_course_true(
    data: Seq<u8>,
    kept: Option<(u32, Seq<u8>)>,
    blocks: Seq<BlockInfo>,
    segments: Seq<Segment>,
    log: Seq<Asked>,
)
    requires
        met_from(data, log),
        keeps_truth(data, blocks, kept),
        course(kept, blocks, segments, log).asked.len() <= log.len(),
        forall|i: int|
            0 <= i < course(kept, blocks, segments, log).asked.len() ==> #[trigger] course(
                kept,
                blocks,
                segments,
                log,
            ).asked[i] == (log[i].offset, log[i].len),
    ensures
        course_outcome(course(kept, blocks, segments, log)) == contents(data, blocks, segments),
        keeps_truth(data, blocks, course(kept, blocks, segments, log).kept),
    decreases segments.len(),
{
    if segments.len() > 0 {
        let u = course(kept, blocks, segments.drop_last(), log);
        let s = segments.last();
        let t = course_step(u, blocks, s, log);
        assert(t == course(kept, blocks, segments, log));
        assert(u.asked.len() <= t.asked.len());
        assert forall|i: int| 0 <= i < u.asked.len() implies #[trigger] u.asked[i] == (
            log[i].offset,
            log[i].len,
        ) by {
            assert(u.asked[i] == t.asked[i]);
        }
        lemma_course_true(data, kept, blocks, segments.drop_last(), log);
        if u.fault is None {
            let n = u.asked.len() as int;
            if !(u.kept is Some && u.kept->Some_0.0 == s.block) && s.block < blocks.len()
                && codec_of(blocks[s.block as int].codec) is Some {
                let b = blocks[s.block as int];
                assert(t.asked[n] == (b.offset, b.clen));
                assert(log[n].answer == Some(window(data, b.offset as int, b.clen as int)));
            }
            if t.fault is None {
                let run = t.runs.last();
                assert(segment_contents(data, blocks, s) == Ok::<Seq<u8>, Fault>(run));
                lemma_joined_push(u.runs, run);
            }
        }
    }
}

/// Reading some segments asks for nothing but the blocks that they lie in.
pub proof fn law_only_named_blocks(
    kept: Option<(u32, Seq<u8>)>,
    blocks: Seq<BlockInfo>,
    segments: Seq<Segment>,
    log: Seq<Asked>,
    i: int,
)
    requires
        0 <= i < course(kept, blocks, segments, log).asked.len(),
    ensures
        exists|j: int|
            {
                &&& 0 <= j < segments.len()
                &&& (#[trigger] segments[j]).block < blocks.len()
                &&& course(kept, blocks, segments, log).asked[i] == (
                    blocks[segments[j].block as int].offset,
                    blocks[segments[j].block as int].clen,
                )
            },
    decreases segments.len(),
{
    if segments.len() > 0 {
        let fewer = segments.drop_last();
        let u = course(kept, blocks, fewer, log);
        if i < u.asked.len() {
            law_only_named_blocks(kept, blocks, fewer, log, i);
            let j = choose|j: int|
                {
                    &&& 0 <= j < fewer.len()
                    &&& (#[trigger] fewer[j]).block < blocks.len()
                    &&& u.asked[i] == (
                        blocks[fewer[j].block as int].offset,
                        blocks[fewer[j].block as int].clen,
                    )
                };
            assert(segments[j] == fewer[j]);
        } else {
            assert(segments[segments.len() - 1] == segments.last());
        }
    }
}

} // verus!
