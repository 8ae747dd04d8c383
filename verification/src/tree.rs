//! From the tree that was archived to the tree that is extracted.

use vstd::prelude::*;

use crate::digest::blake3_of;
use crate::error::Fault;
use crate::extract::{
    below_link, is_plan_for, law_extraction_is_complete, mode_to_set, mtime_to_set, Extraction,
    StepView,
};
use crate::index::{EntryView, IndexView, Kind};
use crate::laws::{
    empty_files_are_empty, is_entry_of, law_created_paths_are_accepted,
    law_dirs_and_links_are_given_back, law_files_are_given_back, law_listing_is_complete,
    lemma_created, tell_apart,
};
use crate::paths::{is_below, joined_path};
use crate::plan::{walked_all, Item, ScanView};
use crate::reader::{extracted_contents, opened};
use crate::select::{chosen, is_wanted, law_block_order, lemma_chosen};
use crate::writer::{is_created, WriteOptions, WriteStats};

verus! {

/// A path lies below a symlink that the walk found.
pub open spec fn below_found_link(scan: ScanView, path: Seq<char>) -> bool {
    exists|m: int|
        {
            &&& 0 <= m < scan.entries.len()
            &&& (#[trigger] scan.entries[m]).kind == Kind::Symlink
            &&& is_below(path, scan.entries[m].path)
        }
}

/// A symlink of the index is one that the walk found.
proof fn lemma_links_were_found(
    data: Seq<u8>,
    stats: WriteStats,
    scan: ScanView,
    hashes: Seq<Seq<u8>>,
    files: Seq<Seq<u8>>,
    opts: WriteOptions,
    ix: IndexView,
    links: Seq<usize>,
    path: Seq<char>,
)
    requires
        is_created(data, stats, scan, hashes, files, opts),
        scan.entries.len() + scan.candidates.len() <= usize::MAX,
        opened(data) matches Ok((_, got)) && got == ix,
        forall|i: int|
            0 <= i < links.len() ==> #[trigger] links[i] < ix.entries.len()
                && ix.entries[links[i] as int].kind == Kind::Symlink,
        below_link(ix.entries, links, path),
    ensures
        below_found_link(scan, path),
{
    let (_, p, order) = lemma_created(data, stats, scan, hashes, files, opts);
    let i = choose|i: int|
        0 <= i < links.len() && is_below(path, ix.entries[#[trigger] links[i] as int].path);
    let all = scan.entries + p.entries;
    law_listing_is_complete(all, ix.entries);
    let e = ix.entries[links[i] as int];
    assert(all.contains(e));
    let m = choose|m: int| 0 <= m < all.len() && all[m] == e;
    if m < scan.entries.len() {
        assert(all[m] == scan.entries[m]);
    } else {
        assert(all[m] == p.entries[m - scan.entries.len()]);
    }
}

/// An entry that is selected has its step, at a place that its kind decides.
proof fn lemma_has_step(
    x: Extraction,
    entries: Seq<EntryView>,
    filter: Option<Seq<Seq<char>>>,
    e: usize,
) -> (k: int)
    requires
        entries.len() <= usize::MAX,
        is_plan_for(x, entries, filter),
        e < entries.len(),
        is_wanted(entries[e as int].path, filter),
    ensures
        0 <= k < x.count(),
        x.subject(k) == e,
        match entries[e as int].kind {
            Kind::Dir => k < x.dirs@.len(),
            Kind::File => x.dirs@.len() <= k < x.dirs@.len() + x.files@.len(),
            Kind::Symlink => x.dirs@.len() + x.files@.len() <= k < x.dirs@.len() + x.files@.len()
                + x.links@.len(),
        },
{
    law_extraction_is_complete(x, entries, filter, e);
    match entries[e as int].kind {
        Kind::Dir => choose|i: int| 0 <= i < x.dirs@.len() && x.dirs@[i] == e,
        Kind::File => {
            let i = choose|i: int| 0 <= i < x.files@.len() && x.files@[i] == e;
            x.dirs@.len() + i
        },
        Kind::Symlink => {
            let i = choose|i: int| 0 <= i < x.links@.len() && x.links@[i] == e;
            x.dirs@.len() + x.files@.len() + i
        },
    }
}

/// The links of a plan are symlinks of the index.
proof fn lemma_plan_links(x: Extraction, entries: Seq<EntryView>, filter: Option<Seq<Seq<char>>>)
    requires
        entries.len() <= usize::MAX,
        is_plan_for(x, entries, filter),
    ensures
        forall|i: int|
            0 <= i < x.links@.len() ==> #[trigger] x.links@[i] < entries.len()
                && entries[x.links@[i] as int].kind == Kind::Symlink,
{
    lemma_chosen(entries, filter, Kind::Symlink, entries.len());
}

/// A selected file is extracted: some step writes it under its path, with its
/// permission bits and its time, and what that step writes is what the file was
/// read as. This leaves out paths below a symlink, which extraction refuses, two
/// different files with the same digest, where deduplication is on, and files that
/// were found empty and then were not.
pub proof fn law_file_is_extracted(
    data: Seq<u8>,
    stats: WriteStats,
    inputs: Seq<Vec<Item>>,
    scan: ScanView,
    hashes: Seq<Seq<u8>>,
    files: Seq<Seq<u8>>,
    opts: WriteOptions,
    x: Extraction,
    filter: Option<Seq<Seq<char>>>,
    dest: Seq<char>,
    i: int,
)
    requires
        walked_all(inputs) == Ok::<ScanView, Fault>(scan),
        is_created(data, stats, scan, hashes, files, opts),
        files.len() == scan.candidates.len(),
        scan.entries.len() + scan.candidates.len() <= usize::MAX,
        empty_files_are_empty(scan.candidates, files),
        opts.dedup ==> tell_apart(hashes, files),
        opened(data) matches Ok((_, ix)) && is_plan_for(x, ix.entries, filter),
        0 <= i < files.len(),
        hashes[i] == blake3_of(files[i]),
        is_wanted(scan.candidates[i].path, filter),
        !below_found_link(scan, scan.candidates[i].path),
    ensures
        opened(data) matches Ok((_, ix)) && exists|k: int, e: usize|
            {
                &&& 0 <= k < x.count()
                &&& e < ix.entries.len()
                &&& is_entry_of(
                    #[trigger] ix.entries[e as int],
                    scan.candidates[i],
                    hashes[i],
                )
                &&& #[trigger] x.step_at(ix.entries, dest, k) == Ok::<StepView, Fault>(
                    StepView::WriteFile {
                        entry: e,
                        path: joined_path(dest, scan.candidates[i].path),
                        mode: mode_to_set(x.opts, ix.entries[e as int]),
                        mtime: mtime_to_set(x.opts, ix.entries[e as int]),
                    },
                )
                &&& extracted_contents(data, ix.blocks, ix.entries[e as int], x.opts.verify) == Ok::<
                    Seq<u8>,
                    Fault,
                >(files[i])
            },
{
    let ix = opened(data)->Ok_0.1;
    law_files_are_given_back(data, stats, scan, hashes, files, opts, i);
    law_created_paths_are_accepted(data, stats, inputs, scan, hashes, files, opts);
    let (_, p, _) = lemma_created(data, stats, scan, hashes, files, opts);
    law_listing_is_complete(scan.entries + p.entries, ix.entries);
    let at = choose|k: int|
        {
            &&& 0 <= k < ix.entries.len()
            &&& is_entry_of(#[trigger] ix.entries[k], scan.candidates[i], hashes[i])
            &&& contents_are(data, ix, k, files[i])
        };
    assert(contents_are(data, ix, at, files[i]));
    let e = at as usize;
    let k = lemma_has_step(x, ix.entries, filter, e);
    lemma_plan_links(x, ix.entries, filter);
    if below_link(ix.entries, x.links@, scan.candidates[i].path) {
        lemma_links_were_found(
            data,
            stats,
            scan,
            hashes,
            files,
            opts,
            ix,
            x.links@,
            scan.candidates[i].path,
        );
    }
    assert(ix.entries[e as int].path == scan.candidates[i].path);
    assert(x.step_at(ix.entries, dest, k) is Ok);
}

/// An entry's bytes are these, checked or not.
spec fn contents_are(data: Seq<u8>, ix: IndexView, k: int, bytes: Seq<u8>) -> bool {
    forall|verify: bool| #[trigger]
        extracted_contents(data, ix.blocks, ix.entries[k], verify) == Ok::<Seq<u8>, Fault>(bytes)
}

/// A selected directory or symlink is extracted: some step makes it under its path,
/// a symlink with its target and its time. A directory gets its permission bits and its time
/// once all files and symlinks are there. This leaves out paths below a symlink,
/// which extraction refuses.
pub proof fn law_dirs_and_links_are_extracted(
    data: Seq<u8>,
    stats: WriteStats,
    inputs: Seq<Vec<Item>>,
    scan: ScanView,
    hashes: Seq<Seq<u8>>,
    files: Seq<Seq<u8>>,
    opts: WriteOptions,
    x: Extraction,
    filter: Option<Seq<Seq<char>>>,
    dest: Seq<char>,
    i: int,
)
    requires
        walked_all(inputs) == Ok::<ScanView, Fault>(scan),
        is_created(data, stats, scan, hashes, files, opts),
        scan.entries.len() + scan.candidates.len() <= usize::MAX,
        opened(data) matches Ok((_, ix)) && is_plan_for(x, ix.entries, filter),
        0 <= i < scan.entries.len(),
        is_wanted(scan.entries[i].path, filter),
        !below_found_link(scan, scan.entries[i].path),
    ensures
        opened(data) matches Ok((_, ix)) && exists|k: int, e: usize|
            {
                &&& 0 <= k < x.count()
                &&& e < ix.entries.len()
                &&& #[trigger] ix.entries[e as int] == scan.entries[i]
                &&& #[trigger] x.step_at(ix.entries, dest, k) == Ok::<StepView, Fault>(
                    if scan.entries[i].kind == Kind::Dir {
                        StepView::MakeDir { path: joined_path(dest, scan.entries[i].path) }
                    } else {
                        StepView::MakeLink {
                            entry: e,
                            path: joined_path(dest, scan.entries[i].path),
                            mtime: mtime_to_set(x.opts, scan.entries[i]),
                        }
                    },
                )
            },
        scan.entries[i].kind == Kind::Dir && (x.opts.restore_mode || x.opts.restore_mtime) ==> (
        opened(data) matches Ok((_, ix)) && exists|k: int|
            {
                &&& x.dirs@.len() + x.files@.len() + x.links@.len() <= k < x.count()
                &&& #[trigger] x.step_at(ix.entries, dest, k) == Ok::<StepView, Fault>(
                    StepView::SetDirMeta {
                        path: joined_path(dest, scan.entries[i].path),
                        mode: mode_to_set(x.opts, scan.entries[i]),
                        mtime: mtime_to_set(x.opts, scan.entries[i]),
                    },
                )
            }),
{
    let ix = opened(data)->Ok_0.1;
    crate::laws::law_walks_are_sound(inputs);
    law_dirs_and_links_are_given_back(data, stats, scan, hashes, files, opts, i);
    law_created_paths_are_accepted(data, stats, inputs, scan, hashes, files, opts);
    let (_, p, _) = lemma_created(data, stats, scan, hashes, files, opts);
    law_listing_is_complete(scan.entries + p.entries, ix.entries);
    let at = choose|at: int| 0 <= at < ix.entries.len() && ix.entries[at] == scan.entries[i];
    let e = at as usize;
    let k = lemma_has_step(x, ix.entries, filter, e);
    lemma_plan_links(x, ix.entries, filter);
    if below_link(ix.entries, x.links@, scan.entries[i].path) {
        lemma_links_were_found(
            data,
            stats,
            scan,
            hashes,
            files,
            opts,
            ix,
            x.links@,
            scan.entries[i].path,
        );
    }
    assert(scan.entries[i].kind != Kind::File);
    assert(ix.entries[e as int] == scan.entries[i]);
    assert(x.step_at(ix.entries, dest, k) is Ok);
    if scan.entries[i].kind == Kind::Dir && (x.opts.restore_mode || x.opts.restore_mtime) {
        let d = x.dirs@.len() as int;
        let l = d + x.files@.len() + x.links@.len();
        let late = l + (d - 1 - k);
        assert(x.subject(late) == e);
        assert(x.step_at(ix.entries, dest, late) is Ok);
    }
}

/// Nothing else is extracted, and nothing is refused: every step of a plan for a
/// created archive is about an entry that the walk found and the selection covers,
/// and the step is taken, unless its path lies below a symlink.
pub proof fn law_only_the_tree_is_extracted(
    data: Seq<u8>,
    stats: WriteStats,
    inputs: Seq<Vec<Item>>,
    scan: ScanView,
    hashes: Seq<Seq<u8>>,
    files: Seq<Seq<u8>>,
    opts: WriteOptions,
    x: Extraction,
    filter: Option<Seq<Seq<char>>>,
    dest: Seq<char>,
    k: int,
)
    requires
        walked_all(inputs) == Ok::<ScanView, Fault>(scan),
        is_created(data, stats, scan, hashes, files, opts),
        scan.entries.len() + scan.candidates.len() <= usize::MAX,
        opened(data) matches Ok((_, ix)) && is_plan_for(x, ix.entries, filter),
        0 <= k < x.count(),
    ensures
        opened(data) matches Ok((_, ix)) && x.subject(k) < ix.entries.len() && ({
            let e = ix.entries[x.subject(k) as int];
            &&& is_wanted(e.path, filter)
            &&& scan.entries.contains(e) || exists|i: int|
                0 <= i < scan.candidates.len() && is_entry_of(
                    e,
                    #[trigger] scan.candidates[i],
                    hashes[i],
                )
            &&& !below_found_link(scan, e.path) ==> x.step_at(ix.entries, dest, k) is Ok
        }),
{
    let (ix, p, order) = lemma_created(data, stats, scan, hashes, files, opts);
    law_created_paths_are_accepted(data, stats, inputs, scan, hashes, files, opts);
    let all = scan.entries + p.entries;
    law_listing_is_complete(all, ix.entries);
    lemma_chosen(ix.entries, filter, Kind::Dir, ix.entries.len());
    lemma_chosen(ix.entries, filter, Kind::File, ix.entries.len());
    lemma_chosen(ix.entries, filter, Kind::Symlink, ix.entries.len());
    let at = chosen(ix.entries, filter, Kind::File, ix.entries.len());
    law_block_order(ix.entries, at, x.files@);
    let s = x.subject(k);
    let d = x.dirs@.len();
    let f = d + x.files@.len();
    let l = f + x.links@.len();
    assert(s < ix.entries.len() && is_wanted(ix.entries[s as int].path, filter)) by {
        if k < d {
            assert(x.dirs@[k] == s);
        } else if k < f {
            assert(x.files@.contains(x.files@[k - d]));
            assert(at.contains(s));
            let i = choose|i: int| 0 <= i < at.len() && at[i] == s;
        } else if k < l {
            assert(x.links@[k - f] == s);
        } else {
            assert(x.dirs@[d - 1 - (k - l)] == s);
        }
    }
    let e = ix.entries[s as int];
    assert(all.contains(e));
    let m = choose|m: int| 0 <= m < all.len() && all[m] == e;
    if m < scan.entries.len() {
        assert(scan.entries[m] == e);
    } else {
        let j = m - scan.entries.len();
        assert(p.entries[j] == e);
        assert(0 <= order[j] < scan.candidates.len());
        assert(is_entry_of(e, scan.candidates[order[j] as int], hashes[order[j] as int]));
    }
    lemma_plan_links(x, ix.entries, filter);
    if below_link(ix.entries, x.links@, e.path) {
        lemma_links_were_found(data, stats, scan, hashes, files, opts, ix, x.links@, e.path);
    }
}

} // verus!
