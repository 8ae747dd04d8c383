//! Reading many files in one pass: each block is asked for once.

use vstd::prelude::*;

use crate::codec::codec_of;
use crate::fetching::{course, course_on, course_start, course_step};
use crate::index::{BlockInfo, IndexView, Kind, Segment};
use crate::laws::{empty_files_are_empty, is_sound, tell_apart};
use crate::placement::law_file_has_one_segment;
use crate::plan::ScanView;
use crate::reader::{all_files, checking, checking_file, opened};
use crate::select::{is_block_order, law_block_order, lemma_chosen, place, place_le};
use crate::stream::Asked;
use crate::writer::{is_created, WriteOptions, WriteStats};

verus! {

/// Reading some segments and then some others is reading them all: the block that is kept
/// serves on, and the requests of the second go behind those of the first.
pub proof fn law_courses_join(
    kept: Option<(u32, Seq<u8>)>,
    blocks: Seq<BlockInfo>,
    first: Seq<Segment>,
    second: Seq<Segment>,
    log: Seq<Asked>,
)
    requires
        course(kept, blocks, first, log).fault is None,
        ({
            let t = course(kept, blocks, first, log);
            let c = course(t.kept, blocks, second, log.skip(t.asked.len() as int));
            t.asked.len() + c.asked.len() <= log.len()
        }),
    ensures
        ({
            let t = course(kept, blocks, first, log);
            let c = course(t.kept, blocks, second, log.skip(t.asked.len() as int));
            course(kept, blocks, first + second, log) == course_on(t, c)
        }),
    decreases second.len(),
{
    let t = course(kept, blocks, first, log);
    let rest = log.skip(t.asked.len() as int);
    if second.len() == 0 {
        assert(first + second =~= first);
        assert(course_on(t, course_start(t.kept)) =~= t);
    } else {
        let init = second.drop_last();
        let s = second.last();
        let v = course(t.kept, blocks, init, rest);
        assert(v.asked.len() <= course_step(v, blocks, s, rest).asked.len());
        law_courses_join(kept, blocks, first, init, log);
        let u = course(kept, blocks, first + init, log);
        assert((first + second).drop_last() =~= first + init);
        if u.fault is None {
            let asks = !(u.kept is Some && u.kept->Some_0.0 == s.block) && s.block < blocks.len()
                && codec_of(blocks[s.block as int].codec) is Some;
            if asks {
                assert(log[u.asked.len() as int] == rest[v.asked.len() as int]);
            }
        }
        assert(course_step(u, blocks, s, log) =~= course_on(t, course_step(v, blocks, s, rest)));
    }
}

/// These are the places of these blocks, each block once and in the order of the archive.
pub open spec fn are_places_of(
    asked: Seq<(u64, u64)>,
    blocks: Seq<BlockInfo>,
    ns: Seq<u32>,
) -> bool {
    &&& asked.len() == ns.len()
    &&& forall|i: int|
        0 <= i < ns.len() ==> {
            &&& #[trigger] ns[i] < blocks.len()
            &&& asked[i] == (blocks[ns[i] as int].offset, blocks[ns[i] as int].clen)
        }
    &&& forall|i: int, j: int| 0 <= i < j < ns.len() ==> #[trigger] ns[i] < #[trigger] ns[j]
}

/// The blocks of some segments never go back.
pub open spec fn go_forward(segments: Seq<Segment>) -> bool {
    forall|i: int, j: int|
        0 <= i < j < segments.len() ==> (#[trigger] segments[i]).block <= (
        #[trigger] segments[j]).block
}

/// Where segments never go back, reading them asks for each block once. If nothing goes
/// wrong, the blocks that are asked for are just those in which the segments lie.
pub proof fn law_each_block_once(
    blocks: Seq<BlockInfo>,
    segments: Seq<Segment>,
    log: Seq<Asked>,
) -> (ns: Seq<u32>)
    requires
        go_forward(segments),
    ensures
        are_places_of(course(None, blocks, segments, log).asked, blocks, ns),
        forall|i: int|
            0 <= i < ns.len() ==> exists|j: int|
                0 <= j < segments.len() && (#[trigger] segments[j]).block == #[trigger] ns[i],
        course(None, blocks, segments, log).fault is None ==> {
            &&& forall|j: int|
                0 <= j < segments.len() ==> ns.contains((#[trigger] segments[j]).block)
            &&& segments.len() > 0 ==> {
                &&& ns.len() > 0
                &&& course(None, blocks, segments, log).kept matches Some((m, _)) && m == ns.last()
                &&& ns.last() == segments.last().block
            }
        },
    decreases segments.len(),
{
    let t = course(None, blocks, segments, log);
    if segments.len() == 0 {
        Seq::empty()
    } else {
        let init = segments.drop_last();
        let s = segments.last();
        assert(go_forward(init)) by {
            assert forall|i: int, j: int| 0 <= i < j < init.len() implies (
            #[trigger] init[i]).block <= (#[trigger] init[j]).block by {
                assert(init[i] == segments[i] && init[j] == segments[j]);
            }
        }
        let u = course(None, blocks, init, log);
        let ms = law_each_block_once(blocks, init, log);
        assert forall|i: int| 0 <= i < ms.len() implies exists|j: int|
            0 <= j < segments.len() && (#[trigger] segments[j]).block == #[trigger] ms[i] by {
            let j = choose|j: int| 0 <= j < init.len() && (#[trigger] init[j]).block == ms[i];
            assert(segments[j] == init[j]);
        }
        let hit = u.kept is Some && u.kept->Some_0.0 == s.block;
        let asks = u.fault is None && !hit && s.block < blocks.len() && codec_of(
            blocks[s.block as int].codec,
        ) is Some;
        if asks {
            let ns = ms.push(s.block);
            assert(segments[segments.len() - 1] == s);
            if init.len() > 0 {
                assert(ms.last() == init.last().block);
                assert(init.last() == segments[segments.len() - 2]);
            } else {
                assert(ms.len() == 0) by {
                    if ms.len() > 0 {
                        let j = choose|j: int|
                            0 <= j < init.len() && (#[trigger] init[j]).block == ms[0];
                    }
                }
            }
            assert forall|j: int| t.fault is None && 0 <= j < segments.len() implies ns.contains(
                (#[trigger] segments[j]).block,
            ) by {
                if j < init.len() {
                    assert(init[j] == segments[j]);
                    assert(ms.contains(init[j].block));
                    let i = choose|i: int| 0 <= i < ms.len() && ms[i] == init[j].block;
                    assert(ns[i] == segments[j].block);
                } else {
                    assert(ns[ns.len() - 1] == s.block);
                }
            }
            assert forall|i: int| 0 <= i < ns.len() implies exists|j: int|
                0 <= j < segments.len() && (#[trigger] segments[j]).block == #[trigger] ns[i] by {
                if i < ms.len() {
                    assert(ns[i] == ms[i]);
                }
            }
            ns
        } else {
            assert(t.asked =~= u.asked);
            if t.fault is None {
                assert(hit);
                if init.len() == 0 {
                    assert(u == course_start(None));
                }
                assert forall|j: int| 0 <= j < segments.len() implies ms.contains(
                    (#[trigger] segments[j]).block,
                ) by {
                    if j < init.len() {
                        assert(init[j] == segments[j]);
                    } else {
                        assert(ms[ms.len() - 1] == s.block);
                    }
                }
            }
            ms
        }
    }
}

/// The segments of the first `n` listed files, one file behind the other.
pub open spec fn listed_segments(ix: IndexView, listed: Seq<usize>, n: nat) -> Seq<Segment>
    decreases n,
{
    if n == 0 {
        Seq::empty()
    } else {
        listed_segments(ix, listed, (n - 1) as nat) + ix.entries[listed[n - 1] as int].segments
    }
}

/// Where no listed file has more than one segment, listing the files by their places lists
/// segments that never go back.
proof fn lemma_listed_forward(ix: IndexView, listed: Seq<usize>, n: nat)
    requires
        n <= listed.len(),
        forall|i: int|
            0 <= i < listed.len() ==> ix.entries[#[trigger] listed[i] as int].segments.len() <= 1,
        forall|i: int, j: int|
            0 <= i < j < listed.len() ==> place_le(
                place(ix.entries[#[trigger] listed[i] as int]),
                place(ix.entries[#[trigger] listed[j] as int]),
            ),
    ensures
        go_forward(listed_segments(ix, listed, n)),
        forall|j: int|
            0 <= j < listed_segments(ix, listed, n).len() ==> exists|i: int|
                {
                    &&& 0 <= i < n
                    &&& ix.entries[#[trigger] listed[i] as int].segments.len() == 1
                    &&& ix.entries[listed[i] as int].segments[0] == #[trigger] listed_segments(
                        ix,
                        listed,
                        n,
                    )[j]
                },
    decreases n,
{
    if n > 0 {
        let m = (n - 1) as nat;
        lemma_listed_forward(ix, listed, m);
        let before = listed_segments(ix, listed, m);
        let own = ix.entries[listed[m as int] as int].segments;
        let all = listed_segments(ix, listed, n);
        assert(own.len() <= 1);
        assert forall|j: int| 0 <= j < all.len() implies exists|i: int|
            {
                &&& 0 <= i < n
                &&& ix.entries[#[trigger] listed[i] as int].segments.len() == 1
                &&& ix.entries[listed[i] as int].segments[0] == #[trigger] all[j]
            } by {
            if j < before.len() {
                assert(all[j] == before[j]);
            } else {
                assert(all[j] == own[0]);
                assert(ix.entries[listed[m as int] as int].segments[0] == all[j]);
            }
        }
        assert forall|a: int, b: int| 0 <= a < b < all.len() implies (#[trigger] all[a]).block <= (
        #[trigger] all[b]).block by {
            assert(all[a] == before[a]);
            if b < before.len() {
                assert(all[b] == before[b]);
            } else {
                let i = choose|i: int|
                    {
                        &&& 0 <= i < m
                        &&& ix.entries[#[trigger] listed[i] as int].segments.len() == 1
                        &&& ix.entries[listed[i] as int].segments[0] == before[a]
                    };
                assert(place_le(
                    place(ix.entries[listed[i] as int]),
                    place(ix.entries[listed[m as int] as int]),
                ));
            }
        }
    }
}

/// Every file of a created archive lies in one block.
proof fn lemma_files_in_one_block(
    data: Seq<u8>,
    stats: WriteStats,
    scan: ScanView,
    hashes: Seq<Seq<u8>>,
    files: Seq<Seq<u8>>,
    opts: WriteOptions,
    ix: IndexView,
    at: Seq<usize>,
    listed: Seq<usize>,
)
    requires
        is_created(data, stats, scan, hashes, files, opts),
        files.len() == scan.candidates.len(),
        is_sound(scan),
        scan.entries.len() + scan.candidates.len() <= usize::MAX,
        empty_files_are_empty(scan.candidates, files),
        opts.dedup ==> tell_apart(hashes, files),
        opened(data) matches Ok((_, got)) && got == ix,
        at.len() <= usize::MAX,
        forall|k: usize| #[trigger]
            at.contains(k) ==> k < ix.entries.len() && ix.entries[k as int].kind == Kind::File,
        is_block_order(ix.entries, at, listed),
    ensures
        go_forward(listed_segments(ix, listed, listed.len())),
{
    law_file_has_one_segment(data, stats, scan, hashes, files, opts);
    law_block_order(ix.entries, at, listed);
    assert forall|i: int| 0 <= i < listed.len() implies ix.entries[
        #[trigger] listed[i] as int
    ].segments.len() <= 1 by {
        let k = listed[i] as int;
        assert(listed.contains(listed[i]));
        assert(at.contains(listed[i]));
        assert(ix.entries[k].kind == Kind::File);
    }
    lemma_listed_forward(ix, listed, listed.len());
}

/// A full extract decodes each block once. Of a created archive, whichever of its files are
/// read, in the order of their places and beginning with no block kept: each block in which
/// they lie is asked for once, in the order of the archive, and no other is.
pub proof fn law_extraction_is_one_pass(
    data: Seq<u8>,
    stats: WriteStats,
    scan: ScanView,
    hashes: Seq<Seq<u8>>,
    files: Seq<Seq<u8>>,
    opts: WriteOptions,
    ix: IndexView,
    at: Seq<usize>,
    listed: Seq<usize>,
    log: Seq<Asked>,
) -> (ns: Seq<u32>)
    requires
        is_created(data, stats, scan, hashes, files, opts),
        files.len() == scan.candidates.len(),
        is_sound(scan),
        scan.entries.len() + scan.candidates.len() <= usize::MAX,
        empty_files_are_empty(scan.candidates, files),
        opts.dedup ==> tell_apart(hashes, files),
        opened(data) matches Ok((_, got)) && got == ix,
        at.len() <= usize::MAX,
        forall|k: usize| #[trigger]
            at.contains(k) ==> k < ix.entries.len() && ix.entries[k as int].kind == Kind::File,
        is_block_order(ix.entries, at, listed),
    ensures
        ({
            let segments = listed_segments(ix, listed, listed.len());
            let t = course(None, ix.blocks, segments, log);
            &&& are_places_of(t.asked, ix.blocks, ns)
            &&& forall|i: int|
                0 <= i < ns.len() ==> exists|j: int|
                    0 <= j < segments.len() && (#[trigger] segments[j]).block == #[trigger] ns[i]
            &&& t.fault is None ==> forall|j: int|
                0 <= j < segments.len() ==> ns.contains((#[trigger] segments[j]).block)
        }),
{
    lemma_files_in_one_block(data, stats, scan, hashes, files, opts, ix, at, listed);
    law_each_block_once(ix.blocks, listed_segments(ix, listed, listed.len()), log)
}

/// Checking files, as long as nothing is wrong with them, is reading their segments.
proof fn lemma_checking_reads(ix: IndexView, listed: Seq<usize>, n: nat, log: Seq<Asked>)
    requires
        n <= listed.len(),
        checking(None, ix, listed, n, log).fault is None,
        checking(None, ix, listed, n, log).asked.len() <= log.len(),
    ensures
        ({
            let t = checking(None, ix, listed, n, log);
            let c = course(None, ix.blocks, listed_segments(ix, listed, n), log);
            c.fault is None && c.asked == t.asked && c.kept == t.kept
        }),
    decreases n,
{
    if n > 0 {
        let m = (n - 1) as nat;
        let u = checking(None, ix, listed, m, log);
        let e = ix.entries[listed[m as int] as int];
        assert(checking(None, ix, listed, n, log) == checking_file(u, ix.blocks, e, log));
        lemma_checking_reads(ix, listed, m, log);
        let before = listed_segments(ix, listed, m);
        law_courses_join(None, ix.blocks, before, e.segments, log);
    }
}

/// Checking a created archive in which nothing is wrong asks for each block in which a file
/// lies once, in the order of the archive, while it checks the files.
pub proof fn law_checking_is_one_pass(
    data: Seq<u8>,
    stats: WriteStats,
    scan: ScanView,
    hashes: Seq<Seq<u8>>,
    files: Seq<Seq<u8>>,
    opts: WriteOptions,
    ix: IndexView,
    listed: Seq<usize>,
    log: Seq<Asked>,
) -> (ns: Seq<u32>)
    requires
        is_created(data, stats, scan, hashes, files, opts),
        files.len() == scan.candidates.len(),
        is_sound(scan),
        scan.entries.len() + scan.candidates.len() <= usize::MAX,
        empty_files_are_empty(scan.candidates, files),
        opts.dedup ==> tell_apart(hashes, files),
        opened(data) matches Ok((_, got)) && got == ix,
        ix.entries.len() <= usize::MAX,
        is_block_order(ix.entries, all_files(ix), listed),
        checking(None, ix, listed, listed.len(), log).fault is None,
        checking(None, ix, listed, listed.len(), log).asked.len() <= log.len(),
    ensures
        are_places_of(checking(None, ix, listed, listed.len(), log).asked, ix.blocks, ns),
        forall|i: int|
            0 <= i < ns.len() ==> exists|j: int|
                {
                    &&& 0 <= j < listed_segments(ix, listed, listed.len()).len()
                    &&& (#[trigger] listed_segments(ix, listed, listed.len())[j]).block
                        == #[trigger] ns[i]
                },
{
    lemma_chosen(ix.entries, None, Kind::File, ix.entries.len());
    lemma_files_in_one_block(
        data,
        stats,
        scan,
        hashes,
        files,
        opts,
        ix,
        all_files(ix),
        listed,
    );
    lemma_checking_reads(ix, listed, listed.len(), log);
    law_each_block_once(ix.blocks, listed_segments(ix, listed, listed.len()), log)
}

} // verus!
