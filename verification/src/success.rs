//! When nothing stands in the way, it is done.

use vstd::prelude::*;

use crate::error::{Error, Fault};
use crate::fetching::{course, law_course_is_contents};
use crate::index::EntryView;
use crate::laws::{is_size_fault, law_packing_faults};
use crate::plan::{
    digests_of, has_endless_file, is_outgrown, packs_to, some_block_refused, some_stream_refused,
    ScanView,
};
use crate::reader::{
    extracted_contents, is_streamed, lemma_contents_len, lemma_course_ends, lemma_total_len_take,
    log_of, streamed_upto, total_len, Archive,
};
use crate::reading::{supplied, Read};
use crate::stream::{Sink, Source};
use crate::writer::{is_creation_failure, law_creation_failure, WriteOptions};

verus! {

/// Creating an archive succeeds where nothing stands in the way: the files can be read
/// and have the sizes that they were found with, there are not more of them than blocks
/// can be numbered, no codec fails, the sink takes what it is given, and the archive does
/// not outgrow what a file offset can say. Then no failure can be what creating it came
/// to.
pub proof fn law_creation_succeeds(
    e: Error,
    data: Seq<u8>,
    scan: ScanView,
    files: Seq<Seq<u8>>,
    opts: WriteOptions,
    log: Seq<Read>,
    told: Seq<Seq<char>>,
)
    requires
        supplied(files, log),
        files.len() == scan.candidates.len(),
        forall|i: int|
            0 <= i < files.len() ==> (#[trigger] files[i]).len() == scan.candidates[i].size,
        files.len() <= u32::MAX,
        e.fault != Fault::Sink,
        !some_block_refused(opts),
        !some_stream_refused(files, scan.candidates, opts),
        !is_outgrown(data, scan, files, opts),
    ensures
        !is_creation_failure(e, data, scan, opts, log, told),
{
    if is_creation_failure(e, data, scan, opts, log, told) {
        law_creation_failure(e, data, scan, opts, log, told, files);
        if e.fault == Fault::TooLong && has_endless_file(files) {
            let i = choose|i: int|
                0 <= i < files.len() && (#[trigger] files[i]).len() > u64::MAX;
            assert(files[i].len() == scan.candidates[i].size);
        } else {
            assert(packs_to(scan, digests_of(files), files, opts, Err(e.fault)));
            law_packing_faults(scan, digests_of(files), files, opts, e.fault);
            let i = choose|i: int| is_size_fault(scan.candidates, files, opts, i, e.fault);
            assert(files[i].len() == scan.candidates[i].size);
        }
    }
}

/// Extracting a file succeeds where nothing stands in the way: the source holds an archive
/// that holds the file, the sink takes what it is given, and the output does not outgrow
/// what a file offset can say. Then streaming it came to no failure, and what was appended
/// is the file.
pub proof fn law_file_extraction_succeeds<S: Source, T: Sink>(
    data: Seq<u8>,
    a: Archive,
    now: Archive,
    source: S,
    source_now: S,
    sink: T,
    sink_now: T,
    e: EntryView,
    verify: bool,
    before: Seq<u8>,
    after: Seq<u8>,
    fault: Option<Fault>,
    file: Seq<u8>,
)
    requires
        source.holds(data),
        a.coherent(data),
        sink_now.failures() == sink.failures(),
        before.len() + total_len(e.segments) <= u64::MAX,
        extracted_contents(data, a.index.blocks@, e, verify) == Ok::<Seq<u8>, Fault>(file),
        is_streamed(
            a,
            now,
            source,
            source_now,
            sink,
            sink_now,
            e,
            verify,
            before,
            after,
            fault,
        ),
    ensures
        fault is None,
        after == before + file,
{
    let n = choose|n: int| #[trigger]
        streamed_upto(
            a,
            now,
            source,
            source_now,
            sink,
            sink_now,
            e,
            verify,
            n,
            before,
            after,
            fault,
        );
    let blocks = a.index.blocks@;
    let log = log_of(source, source_now);
    let some = e.segments.take(n);
    let t = course(a.cache@, blocks, some, log);
    law_course_is_contents(data, a.cache@, blocks, some, log);
    if t.fault is Some {
        lemma_course_ends(a.cache@, blocks, e.segments, n, log);
        law_course_is_contents(data, a.cache@, blocks, e.segments, log);
    } else {
        lemma_contents_len(data, blocks, some);
        lemma_total_len_take(e.segments, n);
        if n == e.segments.len() {
            assert(some =~= e.segments);
        }
    }
}

} // verus!
