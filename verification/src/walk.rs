//! From what the walk finds to what an archive lists.

use vstd::prelude::*;

use crate::digest::blake3_of;
use crate::error::Fault;
use crate::extract::{
    is_plan_for, law_metadata_to_set, mode_to_set, mtime_to_set, restores_mode, restores_mtime,
    Extraction, StepView,
};
use crate::index::{EntryView, Kind};
use crate::laws::{
    empty_files_are_empty, is_entry_of, law_dirs_and_links_are_given_back, law_listing_is_complete,
    lemma_created, lemma_listed, tell_apart,
};
use crate::paths::{
    all_normal, archive_path, joined_path, lemma_part_names, name_of, part_names, path_fault,
    PathPart,
};
use crate::plan::{digests_of, scan_item, walked, walked_all, CandidateView, Item, ScanView, What};
use crate::reader::{extracted_contents, opened};
use crate::select::is_wanted;
use crate::text::join;
use crate::tree::{below_found_link, law_file_is_extracted};
use crate::writer::{is_created, WriteOptions, WriteStats};

verus! {

/// The names of the components of an item's path.
pub open spec fn names_of(parts: Seq<PathPart>) -> Seq<Seq<char>> {
    Seq::new(parts.len(), |i: int| name_of(parts[i]))
}

/// The path under which an item is archived: its names, with slashes between them.
pub open spec fn path_of(item: Item) -> Seq<char> {
    join(names_of(item.parts@), '/')
}

/// An item that an archive keeps: it has a path, and is a directory, a symlink or a file.
pub open spec fn is_kept(item: Item) -> bool {
    item.parts@.len() > 0 && !(item.what is Other)
}

/// `c` is the file that an item is: its path, its mode, its time and its size.
pub open spec fn is_file_of(c: CandidateView, item: Item) -> bool {
    &&& item.what is File
    &&& c.path == path_of(item)
    &&& c.mode == item.mode
    &&& c.mtime == item.mtime
    &&& c.mtime_nanos == item.mtime_nanos
    &&& c.size == item.what->File_0
}

/// `e` says what an item is: its path, its mode, its time; of a symlink its target, of a
/// file its size.
pub open spec fn says(e: EntryView, item: Item) -> bool {
    &&& e.path == path_of(item)
    &&& e.mode == item.mode
    &&& e.mtime == item.mtime
    &&& e.mtime_nanos == item.mtime_nanos
    &&& match item.what {
        What::Dir => {
            &&& e.kind == Kind::Dir
            &&& e.size == 0
            &&& e.hash is None
            &&& e.link_target is None
            &&& e.segments.len() == 0
        },
        What::Symlink(target) => {
            &&& e.kind == Kind::Symlink
            &&& e.size == 0
            &&& e.hash is None
            &&& e.link_target == Some(target@)
            &&& e.segments.len() == 0
        },
        What::File(size) => {
            &&& e.kind == Kind::File
            &&& e.size == size
            &&& e.hash is Some
            &&& e.link_target is None
        },
        What::Other => false,
    }
}

/// The walk has found an item: it is among the files, or among the other entries.
pub open spec fn has_found(s: ScanView, item: Item) -> bool {
    match item.what {
        What::File(_) => exists|m: int|
            0 <= m < s.candidates.len() && is_file_of(#[trigger] s.candidates[m], item),
        What::Other => true,
        _ => exists|m: int| 0 <= m < s.entries.len() && says(#[trigger] s.entries[m], item),
    }
}

/// Everything that a walk has found is found by one that goes on from there.
spec fn goes_on(s: ScanView, t: ScanView) -> bool {
    s.candidates.is_prefix_of(t.candidates) && s.entries.is_prefix_of(t.entries)
}

proof fn lemma_goes_on(s: ScanView, t: ScanView, item: Item)
    requires
        goes_on(s, t),
        has_found(s, item),
    ensures
        has_found(t, item),
{
    match item.what {
        What::File(_) => {
            let m = choose|m: int|
                0 <= m < s.candidates.len() && is_file_of(#[trigger] s.candidates[m], item);
            assert(t.candidates[m] == s.candidates[m]);
        },
        What::Other => {},
        _ => {
            let m = choose|m: int|
                0 <= m < s.entries.len() && says(#[trigger] s.entries[m], item);
            assert(t.entries[m] == s.entries[m]);
        },
    }
}

proof fn lemma_goes_further(a: ScanView, b: ScanView, c: ScanView)
    requires
        goes_on(a, b),
        goes_on(b, c),
    ensures
        goes_on(a, c),
{
    assert forall|m: int| 0 <= m < a.candidates.len() implies a.candidates[m]
        == #[trigger] c.candidates[m] by {
        assert(b.candidates[m] == a.candidates[m]);
    }
    assert forall|m: int| 0 <= m < a.entries.len() implies a.entries[m] == #[trigger] c.entries[m] by {
        assert(b.entries[m] == a.entries[m]);
    }
    assert(c.candidates.subrange(0, a.candidates.len() as int) =~= a.candidates);
    assert(c.entries.subrange(0, a.entries.len() as int) =~= a.entries);
}

/// The path of an item is that under which it is archived.
proof fn lemma_path_of(item: Item)
    requires
        item.parts@.len() > 0,
    ensures
        all_normal(item.parts@) <==> part_names(item.parts@) is Some,
        archive_path(item.parts@) matches Ok(path) ==> path == path_of(item),
        archive_path(item.parts@) is Ok <==> all_normal(item.parts@) && path_fault(
            path_of(item),
        ) is None,
        !all_normal(item.parts@) ==> archive_path(item.parts@) == Err::<Seq<char>, Fault>(
            Fault::UnsupportedComponent,
        ),
        all_normal(item.parts@) && path_fault(path_of(item)) is Some ==> archive_path(item.parts@)
            == Err::<Seq<char>, Fault>(path_fault(path_of(item))->0),
{
    lemma_part_names(item.parts@);
    if all_normal(item.parts@) {
        assert(part_names(item.parts@)->0 =~= names_of(item.parts@));
    }
}

proof fn lemma_one_item(s: ScanView, item: Item)
    requires
        scan_item(s, item) is Ok,
    ensures
        goes_on(s, scan_item(s, item)->Ok_0),
        item.parts@.len() > 0 ==> has_found(scan_item(s, item)->Ok_0, item) && all_normal(
            item.parts@,
        ),
{
    let t = scan_item(s, item)->Ok_0;
    assert(t.candidates.subrange(0, s.candidates.len() as int) =~= s.candidates);
    assert(t.entries.subrange(0, s.entries.len() as int) =~= s.entries);
    if item.parts@.len() > 0 {
        lemma_path_of(item);
        match item.what {
            What::File(_) => {
                assert(is_file_of(t.candidates[s.candidates.len() as int], item));
            },
            What::Other => {},
            _ => {
                assert(says(t.entries[s.entries.len() as int], item));
            },
        }
    }
}

proof fn lemma_walked(s: ScanView, items: Seq<Item>)
    requires
        walked(s, items) is Ok,
    ensures
        goes_on(s, walked(s, items)->Ok_0),
        forall|i: int|
            0 <= i < items.len() && (#[trigger] items[i]).parts@.len() > 0 ==> has_found(
                walked(s, items)->Ok_0,
                items[i],
            ) && all_normal(items[i].parts@),
    decreases items.len(),
{
    let u = walked(s, items)->Ok_0;
    if items.len() == 0 {
        assert(s.candidates.subrange(0, s.candidates.len() as int) =~= s.candidates);
        assert(s.entries.subrange(0, s.entries.len() as int) =~= s.entries);
    } else {
        let init = items.drop_last();
        lemma_walked(s, init);
        let t = walked(s, init)->Ok_0;
        lemma_one_item(t, items.last());
        lemma_goes_further(s, t, u);
        assert forall|i: int|
            0 <= i < items.len() && (#[trigger] items[i]).parts@.len() > 0 implies has_found(
            u,
            items[i],
        ) && all_normal(items[i].parts@) by {
            if i < init.len() {
                assert(init[i] == items[i]);
                lemma_goes_on(t, u, items[i]);
            }
        }
    }
}

/// Every item with a path is found: a file among the files, with its own path, mode, time
/// and size, and a directory or symlink among the entries, with its own path, mode, time
/// and target. The path is that of its components, all of which are ordinary names.
pub proof fn law_every_item_is_found(inputs: Seq<Vec<Item>>, j: int, i: int)
    requires
        walked_all(inputs) is Ok,
        0 <= j < inputs.len(),
        0 <= i < inputs[j]@.len(),
        inputs[j]@[i].parts@.len() > 0,
    ensures
        has_found(walked_all(inputs)->Ok_0, inputs[j]@[i]),
        all_normal(inputs[j]@[i].parts@),
    decreases inputs.len(),
{
    let init = inputs.drop_last();
    let s = walked_all(init)->Ok_0;
    lemma_walked(s, inputs.last()@);
    if j < init.len() {
        assert(init[j] == inputs[j]);
        law_every_item_is_found(init, j, i);
        lemma_goes_on(s, walked_all(inputs)->Ok_0, inputs[j]@[i]);
    } else {
        assert(inputs.last()@[i] == inputs[j]@[i]);
    }
}

/// Some item of the walk is the file `c`.
pub open spec fn is_walked_file(inputs: Seq<Vec<Item>>, c: CandidateView) -> bool {
    exists|j: int, i: int|
        {
            &&& 0 <= j < inputs.len()
            &&& 0 <= i < inputs[j]@.len()
            &&& is_file_of(c, #[trigger] inputs[j]@[i])
        }
}

/// Some item of the walk is what `e` says.
pub open spec fn is_walked(inputs: Seq<Vec<Item>>, e: EntryView) -> bool {
    exists|j: int, i: int|
        {
            &&& 0 <= j < inputs.len()
            &&& 0 <= i < inputs[j]@.len()
            &&& says(e, #[trigger] inputs[j]@[i])
        }
}

/// Some of these items is the file `c`.
spec fn among_files(items: Seq<Item>, c: CandidateView) -> bool {
    exists|i: int| 0 <= i < items.len() && is_file_of(c, #[trigger] items[i])
}

/// Some of these items is what `e` says.
spec fn among(items: Seq<Item>, e: EntryView) -> bool {
    exists|i: int| 0 <= i < items.len() && says(e, #[trigger] items[i])
}

proof fn lemma_walked_from(s: ScanView, items: Seq<Item>)
    requires
        walked(s, items) is Ok,
    ensures
        ({
            let t = walked(s, items)->Ok_0;
            &&& forall|m: int|
                s.candidates.len() <= m < t.candidates.len() ==> among_files(
                    items,
                    #[trigger] t.candidates[m],
                )
            &&& forall|m: int|
                s.entries.len() <= m < t.entries.len() ==> among(items, #[trigger] t.entries[m])
        }),
    decreases items.len(),
{
    if items.len() > 0 {
        let init = items.drop_last();
        let item = items.last();
        lemma_walked_from(s, init);
        lemma_walked(s, init);
        let t = walked(s, init)->Ok_0;
        let u = walked(s, items)->Ok_0;
        lemma_one_item(t, item);
        assert(item == items[items.len() - 1]);
        if item.parts@.len() > 0 {
            lemma_path_of(item);
        }
        assert forall|m: int| s.candidates.len() <= m < u.candidates.len() implies among_files(
            items,
            #[trigger] u.candidates[m],
        ) by {
            if m < t.candidates.len() {
                assert(u.candidates[m] == t.candidates[m]);
                let i = choose|i: int|
                    0 <= i < init.len() && is_file_of(t.candidates[m], #[trigger] init[i]);
                assert(items[i] == init[i]);
            } else {
                assert(is_file_of(u.candidates[m], item));
            }
        }
        assert forall|m: int| s.entries.len() <= m < u.entries.len() implies among(
            items,
            #[trigger] u.entries[m],
        ) by {
            if m < t.entries.len() {
                assert(u.entries[m] == t.entries[m]);
                let i = choose|i: int|
                    0 <= i < init.len() && says(t.entries[m], #[trigger] init[i]);
                assert(items[i] == init[i]);
            } else {
                assert(says(u.entries[m], item));
            }
        }
    }
}

/// Nothing else is found: every file and every entry is an item of the walk.
pub proof fn law_only_items_are_found(inputs: Seq<Vec<Item>>)
    requires
        walked_all(inputs) is Ok,
    ensures
        ({
            let s = walked_all(inputs)->Ok_0;
            &&& forall|m: int|
                0 <= m < s.candidates.len() ==> is_walked_file(inputs, #[trigger] s.candidates[m])
            &&& forall|m: int|
                0 <= m < s.entries.len() ==> is_walked(inputs, #[trigger] s.entries[m])
        }),
    decreases inputs.len(),
{
    if inputs.len() > 0 {
        let init = inputs.drop_last();
        let items = inputs.last()@;
        law_only_items_are_found(init);
        let s = walked_all(init)->Ok_0;
        let t = walked_all(inputs)->Ok_0;
        lemma_walked(s, items);
        lemma_walked_from(s, items);
        assert forall|m: int| 0 <= m < t.candidates.len() implies is_walked_file(
            inputs,
            #[trigger] t.candidates[m],
        ) by {
            let c = t.candidates[m];
            if m < s.candidates.len() {
                assert(c == s.candidates[m]);
                let (j, i) = choose|j: int, i: int|
                    {
                        &&& 0 <= j < init.len()
                        &&& 0 <= i < init[j]@.len()
                        &&& is_file_of(c, #[trigger] init[j]@[i])
                    };
                assert(is_file_of(c, inputs[j]@[i]));
            } else {
                let i = choose|i: int| 0 <= i < items.len() && is_file_of(c, #[trigger] items[i]);
                assert(is_file_of(c, inputs[inputs.len() - 1]@[i]));
            }
        }
        assert forall|m: int| 0 <= m < t.entries.len() implies is_walked(
            inputs,
            #[trigger] t.entries[m],
        ) by {
            let e = t.entries[m];
            if m < s.entries.len() {
                assert(e == s.entries[m]);
                let (j, i) = choose|j: int, i: int|
                    {
                        &&& 0 <= j < init.len()
                        &&& 0 <= i < init[j]@.len()
                        &&& says(e, #[trigger] init[j]@[i])
                    };
                assert(says(e, inputs[j]@[i]));
            } else {
                let i = choose|i: int| 0 <= i < items.len() && says(e, #[trigger] items[i]);
                assert(says(e, inputs[inputs.len() - 1]@[i]));
            }
        }
    }
}

/// The walk takes one item after the other, in each input and from input to input, and
/// starts with nothing. A kept item adds one thing, behind those found before: a file to
/// the files, a directory or symlink to the entries. Any other item adds nothing.
pub proof fn law_walk_goes_item_by_item(
    s: ScanView,
    items: Seq<Item>,
    item: Item,
    inputs: Seq<Vec<Item>>,
    input: Vec<Item>,
)
    ensures
        walked(s, Seq::empty()) == Ok::<ScanView, Fault>(s),
        walked(s, items) matches Ok(t) ==> walked(s, items.push(item)) == scan_item(t, item),
        walked(s, items) matches Err(f) ==> walked(s, items.push(item)) == Err::<ScanView, Fault>(f),
        walked_all(Seq::empty()) matches Ok(t) && t.candidates.len() == 0 && t.entries.len() == 0,
        walked_all(inputs) matches Ok(t) ==> walked_all(inputs.push(input)) == walked(t, input@),
        walked_all(inputs) matches Err(f) ==> walked_all(inputs.push(input)) == Err::<
            ScanView,
            Fault,
        >(f),
        scan_item(s, item) matches Ok(t) ==> {
            &&& is_kept(item) && item.what is File ==> {
                &&& t.candidates.len() == s.candidates.len() + 1
                &&& t.candidates.drop_last() == s.candidates
                &&& is_file_of(t.candidates.last(), item)
                &&& t.entries == s.entries
            }
            &&& is_kept(item) && !(item.what is File) ==> {
                &&& t.entries.len() == s.entries.len() + 1
                &&& t.entries.drop_last() == s.entries
                &&& says(t.entries.last(), item)
                &&& t.candidates == s.candidates
            }
            &&& !is_kept(item) ==> t == s
        },
{
    assert(items.push(item).drop_last() =~= items);
    assert(inputs.push(input).drop_last() =~= inputs);
    if scan_item(s, item) is Ok {
        let t = scan_item(s, item)->Ok_0;
        if item.parts@.len() > 0 {
            lemma_path_of(item);
            assert(t.candidates.len() > s.candidates.len() ==> t.candidates.drop_last()
                =~= s.candidates);
            assert(t.entries.len() > s.entries.len() ==> t.entries.drop_last() =~= s.entries);
        }
    }
}

/// An item is refused for its path: a component of it is not an ordinary name, or the path
/// that its names make cannot stand in an archive.
pub open spec fn refusal_of(item: Item) -> Option<Fault> {
    if item.parts@.len() == 0 {
        None
    } else if !all_normal(item.parts@) {
        Some(Fault::UnsupportedComponent)
    } else {
        path_fault(path_of(item))
    }
}

/// A walk is refused for its first item that is refused; if there is none, it is taken in.
pub proof fn law_refused_walks(s: ScanView, items: Seq<Item>)
    ensures
        walked(s, items) is Ok <==> forall|i: int|
            0 <= i < items.len() ==> refusal_of(#[trigger] items[i]) is None,
        walked(s, items) matches Err(f) ==> exists|i: int|
            {
                &&& 0 <= i < items.len()
                &&& refusal_of(#[trigger] items[i]) == Some(f)
                &&& forall|h: int| 0 <= h < i ==> refusal_of(#[trigger] items[h]) is None
            },
    decreases items.len(),
{
    if items.len() > 0 {
        let init = items.drop_last();
        let last = items[items.len() - 1];
        law_refused_walks(s, init);
        if last.parts@.len() > 0 {
            lemma_path_of(last);
        }
        if walked(s, init) is Ok {
            assert forall|h: int| 0 <= h < init.len() implies refusal_of(
                #[trigger] items[h],
            ) is None by {
                assert(init[h] == items[h]);
            }
            if walked(s, items) is Err {
                assert(refusal_of(items[items.len() - 1]) == Some(walked(s, items)->Err_0));
            }
        } else {
            let f = walked(s, init)->Err_0;
            let i = choose|i: int|
                {
                    &&& 0 <= i < init.len()
                    &&& refusal_of(#[trigger] init[i]) == Some(f)
                    &&& forall|h: int| 0 <= h < i ==> refusal_of(#[trigger] init[h]) is None
                };
            assert(refusal_of(items[i]) == Some(f));
            assert forall|h: int| 0 <= h < i implies refusal_of(#[trigger] items[h]) is None by {
                assert(init[h] == items[h]);
            }
        }
    }
}

/// Every file, directory and symlink that was walked is listed in the archive, as what it
/// is: under the path of its components, with its own mode, time and size, and, of a
/// symlink, its own target.
pub proof fn law_every_item_is_listed(
    data: Seq<u8>,
    stats: WriteStats,
    inputs: Seq<Vec<Item>>,
    scan: ScanView,
    hashes: Seq<Seq<u8>>,
    files: Seq<Seq<u8>>,
    opts: WriteOptions,
    j: int,
    i: int,
)
    requires
        walked_all(inputs) == Ok::<ScanView, Fault>(scan),
        is_created(data, stats, scan, hashes, files, opts),
        scan.entries.len() + scan.candidates.len() <= usize::MAX,
        0 <= j < inputs.len(),
        0 <= i < inputs[j]@.len(),
        is_kept(inputs[j]@[i]),
    ensures
        opened(data) matches Ok((_, ix)) && exists|k: int|
            0 <= k < ix.entries.len() && says(#[trigger] ix.entries[k], inputs[j]@[i]),
{
    let item = inputs[j]@[i];
    let (ix, p, order) = lemma_created(data, stats, scan, hashes, files, opts);
    let cs = scan.candidates;
    law_every_item_is_found(inputs, j, i);
    if item.what is File {
        let m = choose|m: int| 0 <= m < cs.len() && is_file_of(#[trigger] cs[m], item);
        assert(order.contains(m as usize));
        let at = choose|at: int| 0 <= at < order.len() && order[at] == m as usize;
        let k = lemma_listed(scan, p, ix, at);
        assert(is_entry_of(p.entries[at], cs[m], hashes[m]));
        assert(says(ix.entries[k], item));
    } else {
        let m = choose|m: int|
            0 <= m < scan.entries.len() && says(#[trigger] scan.entries[m], item);
        law_dirs_and_links_are_given_back(data, stats, scan, hashes, files, opts, m);
        let k = choose|k: int| 0 <= k < ix.entries.len() && ix.entries[k] == scan.entries[m];
        assert(says(ix.entries[k], item));
    }
}

/// Nothing else is listed: every entry of the archive says what an item of the walk is.
pub proof fn law_only_items_are_listed(
    data: Seq<u8>,
    stats: WriteStats,
    inputs: Seq<Vec<Item>>,
    scan: ScanView,
    hashes: Seq<Seq<u8>>,
    files: Seq<Seq<u8>>,
    opts: WriteOptions,
    k: int,
)
    requires
        walked_all(inputs) == Ok::<ScanView, Fault>(scan),
        is_created(data, stats, scan, hashes, files, opts),
        scan.entries.len() + scan.candidates.len() <= usize::MAX,
        opened(data) matches Ok((_, ix)) && 0 <= k < ix.entries.len(),
    ensures
        opened(data) matches Ok((_, ix)) && is_walked(inputs, ix.entries[k]),
{
    let (ix, p, order) = lemma_created(data, stats, scan, hashes, files, opts);
    let all = scan.entries + p.entries;
    law_listing_is_complete(all, ix.entries);
    let e = ix.entries[k];
    assert(all.contains(e));
    let m = choose|m: int| 0 <= m < all.len() && all[m] == e;
    if m < scan.entries.len() {
        law_only_items_are_found(inputs);
        assert(walked_all(inputs)->Ok_0.entries[m] == e);
    } else {
        let at = m - scan.entries.len();
        assert(e == p.entries[at]);
        assert(0 <= order[at] < scan.candidates.len());
        lemma_file_was_walked(inputs, scan, hashes[order[at] as int], order[at] as int, e);
    }
}

/// The entry of a file that was found says what an item of the walk is.
proof fn lemma_file_was_walked(
    inputs: Seq<Vec<Item>>,
    scan: ScanView,
    hash: Seq<u8>,
    m: int,
    e: EntryView,
)
    requires
        walked_all(inputs) == Ok::<ScanView, Fault>(scan),
        0 <= m < scan.candidates.len(),
        is_entry_of(e, scan.candidates[m], hash),
    ensures
        is_walked(inputs, e),
{
    law_only_items_are_found(inputs);
    let c = scan.candidates[m];
    assert(walked_all(inputs)->Ok_0.candidates[m] == c);
    assert(is_walked_file(inputs, c));
    let (j, i) = choose|j: int, i: int|
        {
            &&& 0 <= j < inputs.len()
            &&& 0 <= i < inputs[j]@.len()
            &&& is_file_of(c, #[trigger] inputs[j]@[i])
        };
    assert(says(e, inputs[j]@[i]));
}

/// A walked file that is selected is extracted as it was found: some step writes it under
/// its own path, with its own permission bits and time where they are restored, and with
/// the bytes that it was read as. This leaves out paths below a symlink, which extraction
/// refuses, two different files with the same digest, where deduplication is on, and files
/// that were found empty and then were not.
pub proof fn law_walked_file_is_extracted(
    data: Seq<u8>,
    stats: WriteStats,
    inputs: Seq<Vec<Item>>,
    scan: ScanView,
    hashes: Seq<Seq<u8>>,
    files: Seq<Seq<u8>>,
    opts: WriteOptions,
    x: Extraction,
    filter: Option<Seq<Seq<char>>>,
    dest: Seq<char>,
    j: int,
    i: int,
)
    requires
        walked_all(inputs) == Ok::<ScanView, Fault>(scan),
        is_created(data, stats, scan, hashes, files, opts),
        files.len() == scan.candidates.len(),
        hashes == digests_of(files),
        scan.entries.len() + scan.candidates.len() <= usize::MAX,
        empty_files_are_empty(scan.candidates, files),
        opts.dedup ==> tell_apart(hashes, files),
        opened(data) matches Ok((_, ix)) && is_plan_for(x, ix.entries, filter),
        0 <= j < inputs.len(),
        0 <= i < inputs[j]@.len(),
        is_kept(inputs[j]@[i]),
        inputs[j]@[i].what is File,
        is_wanted(path_of(inputs[j]@[i]), filter),
        !below_found_link(scan, path_of(inputs[j]@[i])),
    ensures
        opened(data) matches Ok((_, ix)) && exists|k: int, m: int|
            {
                &&& 0 <= k < x.count()
                &&& 0 <= m < files.len()
                &&& is_file_of(#[trigger] scan.candidates[m], inputs[j]@[i])
                &&& #[trigger] x.step_at(ix.entries, dest, k) matches Ok(
                    StepView::WriteFile { entry, path, mode, mtime },
                ) && {
                    &&& entry < ix.entries.len()
                    &&& says(ix.entries[entry as int], inputs[j]@[i])
                    &&& path == joined_path(dest, path_of(inputs[j]@[i]))
                    &&& restores_mode(x.opts, inputs[j]@[i].mode, mode)
                    &&& restores_mtime(
                        x.opts,
                        inputs[j]@[i].mtime,
                        inputs[j]@[i].mtime_nanos,
                        mtime,
                    )
                    &&& extracted_contents(
                        data,
                        ix.blocks,
                        ix.entries[entry as int],
                        x.opts.verify,
                    ) == Ok::<Seq<u8>, Fault>(files[m])
                }
            },
{
    let item = inputs[j]@[i];
    let cs = scan.candidates;
    law_every_item_is_found(inputs, j, i);
    let m = choose|m: int| 0 <= m < cs.len() && is_file_of(#[trigger] cs[m], item);
    assert(hashes[m] == blake3_of(files[m]));
    law_file_is_extracted(data, stats, inputs, scan, hashes, files, opts, x, filter, dest, m);
    let ix = opened(data)->Ok_0.1;
    let (k, e) = choose|k: int, e: usize|
        {
            &&& 0 <= k < x.count()
            &&& e < ix.entries.len()
            &&& is_entry_of(#[trigger] ix.entries[e as int], cs[m], hashes[m])
            &&& #[trigger] x.step_at(ix.entries, dest, k) == Ok::<StepView, Fault>(
                StepView::WriteFile {
                    entry: e,
                    path: joined_path(dest, cs[m].path),
                    mode: mode_to_set(x.opts, ix.entries[e as int]),
                    mtime: mtime_to_set(x.opts, ix.entries[e as int]),
                },
            )
            &&& extracted_contents(data, ix.blocks, ix.entries[e as int], x.opts.verify) == Ok::<
                Seq<u8>,
                Fault,
            >(files[m])
        };
    law_metadata_to_set(x.opts, ix.entries[e as int]);
    assert(says(ix.entries[e as int], item));
    assert(is_file_of(scan.candidates[m], item));
}

} // verus!
