//! Extraction, decided step by step.
//!
//! An [`Extraction`] says what to do to the file system and in which order; who
//! runs it does it. Each step is decided only when it is asked for, so that what
//! came before a refused path has been done.

use vstd::prelude::*;

use crate::error::{Error, Fault};
use crate::index::{copy_text, entry_views, text_view, Entry, EntryView, Kind};
use crate::paths::{
    is_below, joined_path, law_accepted_paths_stay_inside, law_below,
    law_directory_selects_what_is_below, law_selects_nothing_else, lies_below, path_fault,
    safe_join, selects, stays_inside,
};
use crate::reader::Archive;
use crate::select::{
    choose_entries, chosen, filter_view, in_block_order, is_block_order, is_wanted,
    law_block_order, law_chosen_once, lemma_chosen,
};
use crate::text::{chars_of, law_text_order, split, text_le};

verus! {

/// What extraction did.
#[derive(Debug, Clone, Copy, PartialEq, Eq, Structural)]
pub struct ExtractStats {
    pub files: u64,
    pub dirs: u64,
    pub symlinks: u64,
    pub bytes: u64,
}

impl Default for ExtractStats {
    fn default() -> (s: ExtractStats)
        ensures
            s == (ExtractStats { files: 0, dirs: 0, symlinks: 0, bytes: 0 }),
    {
        ExtractStats { files: 0, dirs: 0, symlinks: 0, bytes: 0 }
    }
}

#[derive(Debug, Clone, Copy, PartialEq, Eq, Structural)]
pub struct ExtractOptions {
    /// Restore permission bits from the archive.
    pub restore_mode: bool,
    /// Restore modification times.
    pub restore_mtime: bool,
    /// Verify each file's BLAKE3 against the index after writing.
    pub verify: bool,
    /// Overwrite files that already exist at the destination.
    pub overwrite: bool,
}

impl Default for ExtractOptions {
    fn default() -> (o: ExtractOptions)
        ensures
            o == (ExtractOptions {
                restore_mode: true,
                restore_mtime: true,
                verify: true,
                overwrite: true,
            }),
    {
        ExtractOptions { restore_mode: true, restore_mtime: true, verify: true, overwrite: true }
    }
}

/// One thing to do.
#[derive(Debug)]
pub enum Step {
    /// Create a directory and those above it.
    MakeDir { path: String },
    /// Create the directories above the path, then write the file entry at this
    /// position of the index to it, then set its permission bits and its
    /// modification time where they are given.
    WriteFile { entry: usize, path: String, mode: Option<u32>, mtime: Option<(i64, u32)> },
    /// Create the directories above the path, then create the symlink of the
    /// entry at this position of the index, then set its modification time where
    /// it is given and can be set.
    MakeLink { entry: usize, path: String, mtime: Option<(i64, u32)> },
    /// Set the permission bits of a directory where they are given, and its
    /// modification time where it is given and can be set.
    SetDirMeta { path: String, mode: Option<u32>, mtime: Option<(i64, u32)> },
}

/// What a step says.
#[verifier::ext_equal]
pub enum StepView {
    MakeDir { path: Seq<char> },
    WriteFile { entry: usize, path: Seq<char>, mode: Option<u32>, mtime: Option<(i64, u32)> },
    MakeLink { entry: usize, path: Seq<char>, mtime: Option<(i64, u32)> },
    SetDirMeta { path: Seq<char>, mode: Option<u32>, mtime: Option<(i64, u32)> },
}

impl View for Step {
    type V = StepView;

    open spec fn view(&self) -> StepView {
        match *self {
            Step::MakeDir { path } => StepView::MakeDir { path: path@ },
            Step::WriteFile { entry, path, mode, mtime } => StepView::WriteFile {
                entry,
                path: path@,
                mode,
                mtime,
            },
            Step::MakeLink { entry, path, mtime } => StepView::MakeLink {
                entry,
                path: path@,
                mtime,
            },
            Step::SetDirMeta { path, mode, mtime } => StepView::SetDirMeta {
                path: path@,
                mode,
                mtime,
            },
        }
    }
}

/// The permission bits of a mode; the file type bits are not ours to set.
pub open spec fn permission_bits(mode: u32) -> u32 {
    mode & 0o7777
}

/// The permission bits that an entry is given, if any.
pub open spec fn mode_to_set(opts: ExtractOptions, e: EntryView) -> Option<u32> {
    if opts.restore_mode {
        Some(permission_bits(e.mode))
    } else {
        None
    }
}

/// The modification time that an entry is given, if any.
pub open spec fn mtime_to_set(opts: ExtractOptions, e: EntryView) -> Option<(i64, u32)> {
    if opts.restore_mtime {
        Some((e.mtime, e.mtime_nanos))
    } else {
        None
    }
}

/// A path lies below one of the symlinks at some positions.
pub open spec fn below_link(entries: Seq<EntryView>, links: Seq<usize>, path: Seq<char>) -> bool {
    exists|i: int|
        0 <= i < links.len() && is_below(path, entries[#[trigger] links[i] as int].path)
}

/// What is to be extracted: positions of entries in the index.
pub struct Extraction {
    pub dirs: Vec<usize>,
    pub files: Vec<usize>,
    pub links: Vec<usize>,
    /// The paths of the symlinks, one for each.
    pub link_paths: Vec<Vec<char>>,
    pub opts: ExtractOptions,
}

/// All positions stand for entries of the kind.
pub open spec fn all_of_kind(entries: Seq<EntryView>, at: Seq<usize>, kind: Kind) -> bool {
    forall|i: int|
        0 <= i < at.len() ==> #[trigger] at[i] < entries.len() && entries[at[i] as int].kind == kind
}

impl Extraction {
    /// The positions stand for entries of the right kinds.
    pub open spec fn wf(self, entries: Seq<EntryView>) -> bool {
        &&& all_of_kind(entries, self.dirs@, Kind::Dir)
        &&& all_of_kind(entries, self.files@, Kind::File)
        &&& all_of_kind(entries, self.links@, Kind::Symlink)
        &&& self.link_paths@.len() == self.links@.len()
        &&& forall|i: int|
            0 <= i < self.links@.len() ==> (#[trigger] self.link_paths@[i])@
                == entries[self.links@[i] as int].path
    }

    /// How many directories have their permission bits or their time restored.
    pub open spec fn metas(self) -> nat {
        if self.opts.restore_mode || self.opts.restore_mtime {
            self.dirs@.len()
        } else {
            0
        }
    }

    /// How many steps there are.
    pub open spec fn count(self) -> nat {
        self.dirs@.len() + self.files@.len() + self.links@.len() + self.metas()
    }

    /// The entry that a step is about. Directories come first, then files in
    /// block order, then symlinks, so that their targets already exist.
    /// The bits and times of directories come last: writing files into a
    /// directory updates its time, and may not be permitted. They come in
    /// reverse, so that what is below a directory is done before it is closed.
    pub open spec fn subject(self, k: int) -> usize {
        let d = self.dirs@.len();
        let f = d + self.files@.len();
        let l = f + self.links@.len();
        if k < d {
            self.dirs@[k]
        } else if k < f {
            self.files@[k - d]
        } else if k < l {
            self.links@[k - f]
        } else {
            self.dirs@[d - 1 - (k - l)]
        }
    }

    /// The step with this number, or why it is refused.
    pub open spec fn step_at(self, entries: Seq<EntryView>, dest: Seq<char>, k: int) -> Result<
        StepView,
        Fault,
    > {
        let d = self.dirs@.len();
        let f = d + self.files@.len();
        let l = f + self.links@.len();
        let entry = self.subject(k);
        let e = entries[entry as int];
        let path = joined_path(dest, e.path);
        match path_fault(e.path) {
            Some(fault) => Err(fault),
            None if below_link(entries, self.links@, e.path) => Err(Fault::BelowLink),
            None => Ok(
                if k < d {
                    StepView::MakeDir { path }
                } else if k < f {
                    StepView::WriteFile {
                        entry,
                        path,
                        mode: mode_to_set(self.opts, e),
                        mtime: mtime_to_set(self.opts, e),
                    }
                } else if k < l {
                    StepView::MakeLink { entry, path, mtime: mtime_to_set(self.opts, e) }
                } else {
                    StepView::SetDirMeta {
                        path,
                        mode: mode_to_set(self.opts, e),
                        mtime: mtime_to_set(self.opts, e),
                    }
                },
            ),
        }
    }

    /// The position of the entry that a step is about, if there is such a step.
    pub fn entry_at(&self, k: usize) -> (r: Option<usize>)
        ensures
            match r {
                Some(entry) => k < self.count() && entry == self.subject(k as int),
                None => k >= self.count(),
            },
    {
        let d: usize = self.dirs.len();
        let nf: usize = self.files.len();
        let nl: usize = self.links.len();
        if k < d {
            Some(self.dirs[k])
        } else if k - d < nf {
            Some(self.files[k - d])
        } else if k - d - nf < nl {
            Some(self.links[k - d - nf])
        } else if (self.opts.restore_mode || self.opts.restore_mtime) && k - d - nf - nl < d {
            Some(self.dirs[d - 1 - (k - d - nf - nl)])
        } else {
            None
        }
    }

    /// The step with this number, under the destination `dest`. `None` means
    /// that there is none: everything is done.
    pub fn step(&self, entries: &Vec<Entry>, dest: &str, k: usize) -> (r: Result<
        Option<Step>,
        Error,
    >)
        requires
            self.wf(entry_views(entries@)),
        ensures
            match r {
                Ok(Some(step)) => k < self.count() && self.step_at(
                    entry_views(entries@),
                    dest@,
                    k as int,
                ) == Ok::<StepView, Fault>(step@),
                Ok(None) => k >= self.count(),
                Err(e) => k < self.count() && self.step_at(
                    entry_views(entries@),
                    dest@,
                    k as int,
                ) == Err::<StepView, Fault>(e.fault),
            },
    {
        let ghost views = entry_views(entries@);
        let entry: usize = match self.entry_at(k) {
            Some(entry) => entry,
            None => {
                return Ok(None);
            },
        };
        let d: usize = self.dirs.len();
        let nf: usize = self.files.len();
        let nl: usize = self.links.len();
        proof {
            if k < d {
                assert(self.dirs@[k as int] < views.len());
            } else if k - d < nf {
                assert(self.files@[k - d] < views.len());
            } else if k - d - nf < nl {
                assert(self.links@[k - d - nf] < views.len());
            } else {
                assert(self.dirs@[d - 1 - (k - d - nf - nl)] < views.len());
            }
            assert(views[entry as int] == entries@[entry as int]@);
        }
        let e = &entries[entry];
        let path = match safe_join(dest, &e.path) {
            Ok(path) => path,
            Err(e) => {
                return Err(e);
            },
        };
        if self.is_below_link(entries, &e.path) {
            return Err(Error::new(Fault::BelowLink));
        }
        if k < d {
            return Ok(Some(Step::MakeDir { path }));
        }
        let mode = if self.opts.restore_mode {
            Some(e.mode & 0o7777)
        } else {
            None
        };
        let mtime = if self.opts.restore_mtime {
            Some((e.mtime, e.mtime_nanos))
        } else {
            None
        };
        if k - d < nf {
            return Ok(Some(Step::WriteFile { entry, path, mode, mtime }));
        }
        if k - d - nf < nl {
            return Ok(Some(Step::MakeLink { entry, path, mtime }));
        }
        Ok(Some(Step::SetDirMeta { path, mode, mtime }))
    }

    /// Whether a path lies below a symlink that this extraction creates.
    fn is_below_link(&self, entries: &Vec<Entry>, path: &str) -> (r: bool)
        requires
            self.wf(entry_views(entries@)),
        ensures
            r == below_link(entry_views(entries@), self.links@, path@),
    {
        let ghost views = entry_views(entries@);
        if self.link_paths.len() == 0 {
            return false;
        }
        let subject = chars_of(path);
        let mut i: usize = 0;
        while i < self.link_paths.len()
            invariant
                i <= self.link_paths@.len(),
                self.wf(views),
                views == entry_views(entries@),
                subject@ == path@,
                forall|j: int|
                    0 <= j < i ==> !is_below(path@, views[#[trigger] self.links@[j] as int].path),
            decreases self.link_paths@.len() - i,
        {
            assert(self.link_paths@[i as int]@ == views[self.links@[i as int] as int].path);
            if lies_below(&subject, &self.link_paths[i]) {
                return true;
            }
            i += 1;
        }
        false
    }

    /// Whether a file may be written where something stands or not.
    pub fn admit_file(&self, exists: bool) -> (r: Result<(), Error>)
        ensures
            match r {
                Ok(()) => self.opts.overwrite || !exists,
                Err(e) => !self.opts.overwrite && exists && e.fault == Fault::AlreadyExists,
            },
    {
        if !self.opts.overwrite && exists {
            return Err(Error::new(Fault::AlreadyExists));
        }
        Ok(())
    }

    /// The target of a symlink that is to be created where something stands or
    /// not. What stands there is to be removed first.
    pub fn admit_link(&self, entry: &Entry, exists: bool) -> (r: Result<String, Error>)
        ensures
            match r {
                Ok(target) => text_view(entry.link_target) == Some(target@) && (
                self.opts.overwrite || !exists),
                Err(e) => {
                    ||| entry.link_target is None && e.fault == Fault::NoLinkTarget
                    ||| {
                        &&& entry.link_target is Some
                        &&& !self.opts.overwrite && exists
                        &&& e.fault == Fault::AlreadyExists
                    }
                },
            },
    {
        match copy_text(&entry.link_target) {
            None => Err(Error::new(Fault::NoLinkTarget)),
            Some(target) => match self.admit_file(exists) {
                Ok(()) => Ok(target),
                Err(e) => Err(e),
            },
        }
    }

    /// What the whole extraction does, if its bytes can be counted in 64 bits.
    pub fn stats(&self, entries: &Vec<Entry>) -> (r: Option<ExtractStats>)
        requires
            self.wf(entry_views(entries@)),
        ensures
            match r {
                Some(s) => {
                    &&& s.dirs == self.dirs@.len()
                    &&& s.files == self.files@.len()
                    &&& s.symlinks == self.links@.len()
                    &&& s.bytes == bytes_of(entry_views(entries@), self.files@)
                },
                None => bytes_of(entry_views(entries@), self.files@) > u64::MAX,
            },
    {
        let ghost views = entry_views(entries@);
        let mut bytes: u64 = 0;
        let mut i: usize = 0;
        assert(self.files@.take(0) =~= Seq::<usize>::empty());
        while i < self.files.len()
            invariant
                i <= self.files@.len(),
                views == entry_views(entries@),
                self.wf(views),
                bytes == bytes_of(views, self.files@.take(i as int)),
            decreases self.files@.len() - i,
        {
            proof {
                assert(self.files@.take(i + 1).drop_last() =~= self.files@.take(i as int));
                lemma_bytes_of_take(views, self.files@, i + 1);
                assert(self.files@[i as int] < views.len());
                assert(views[self.files@[i as int] as int] == entries@[self.files@[i as int] as int]@);
            }
            match bytes.checked_add(entries[self.files[i]].size) {
                Some(sum) => {
                    bytes = sum;
                },
                None => {
                    return None;
                },
            }
            i += 1;
        }
        assert(self.files@.take(i as int) =~= self.files@);
        Some(
            ExtractStats {
                files: self.files.len() as u64,
                dirs: self.dirs.len() as u64,
                symlinks: self.links.len() as u64,
                bytes,
            },
        )
    }
}

/// The sum of the sizes of the entries at some positions.
pub open spec fn bytes_of(entries: Seq<EntryView>, at: Seq<usize>) -> nat
    decreases at.len(),
{
    if at.len() == 0 {
        0
    } else {
        bytes_of(entries, at.drop_last()) + entries[at.last() as int].size as nat
    }
}

proof fn lemma_bytes_of_take(entries: Seq<EntryView>, at: Seq<usize>, n: int)
    requires
        0 <= n <= at.len(),
    ensures
        bytes_of(entries, at.take(n)) <= bytes_of(entries, at),
    decreases at.len() - n,
{
    if n < at.len() {
        assert(at.take(n + 1).drop_last() =~= at.take(n));
        lemma_bytes_of_take(entries, at, n + 1);
    } else {
        assert(at.take(n) =~= at);
    }
}

/// `x` is the plan to extract what the selection covers.
pub open spec fn is_plan_for(
    x: Extraction,
    entries: Seq<EntryView>,
    filter: Option<Seq<Seq<char>>>,
) -> bool {
    &&& x.dirs@ == chosen(entries, filter, Kind::Dir, entries.len())
    &&& is_block_order(entries, chosen(entries, filter, Kind::File, entries.len()), x.files@)
    &&& x.links@ == chosen(entries, filter, Kind::Symlink, entries.len())
}

/// A selection covers no entry.
pub open spec fn matches_nothing(entries: Seq<EntryView>, filter: Option<Seq<Seq<char>>>) -> bool {
    forall|i: int| 0 <= i < entries.len() ==> !is_wanted((#[trigger] entries[i]).path, filter)
}

impl Archive {
    /// Plan to extract the entries that `filter` covers (all of them if `None`).
    pub fn extract(&self, filter: &Option<Vec<String>>, opts: &ExtractOptions) -> (r: Result<
        Extraction,
        Error,
    >)
        ensures
            match r {
                Ok(x) => {
                    let entries = self.index@.entries;
                    let f = filter_view(*filter);
                    &&& x.opts == *opts
                    &&& x.wf(entries)
                    &&& is_plan_for(x, entries, f)
                    &&& filter is Some ==> !matches_nothing(entries, f)
                },
                Err(e) => {
                    &&& filter is Some
                    &&& matches_nothing(self.index@.entries, filter_view(*filter))
                    &&& e.fault == Fault::NoMatch
                },
            },
    {
        let entries = &self.index.entries;
        let ghost views = self.index@.entries;
        let ghost f = filter_view(*filter);
        let count: usize = entries.len();
        proof {
            assert(views.len() == count);
            lemma_chosen(views, f, Kind::Dir, views.len());
            lemma_chosen(views, f, Kind::File, views.len());
            lemma_chosen(views, f, Kind::Symlink, views.len());
        }
        let dirs = choose_entries(entries, filter, Kind::Dir);
        let chosen_files = choose_entries(entries, filter, Kind::File);
        let links = choose_entries(entries, filter, Kind::Symlink);
        if dirs.len() == 0 && chosen_files.len() == 0 && links.len() == 0 {
            if filter.is_some() {
                proof {
                    assert forall|i: int| 0 <= i < views.len() implies !is_wanted(
                        (#[trigger] views[i]).path,
                        f,
                    ) by {
                        if is_wanted(views[i].path, f) {
                            let k = i as usize;
                            match views[i].kind {
                                Kind::Dir => assert(chosen(views, f, Kind::Dir, views.len()).contains(
                                    k,
                                )),
                                Kind::File => assert(chosen(
                                    views,
                                    f,
                                    Kind::File,
                                    views.len(),
                                ).contains(k)),
                                Kind::Symlink => assert(chosen(
                                    views,
                                    f,
                                    Kind::Symlink,
                                    views.len(),
                                ).contains(k)),
                            }
                        }
                    }
                }
                return Err(Error::new(Fault::NoMatch));
            }
        } else {
            proof {
                if dirs@.len() > 0 {
                    assert(is_wanted(views[dirs@[0] as int].path, f));
                } else if chosen_files@.len() > 0 {
                    assert(is_wanted(views[chosen_files@[0] as int].path, f));
                } else {
                    assert(is_wanted(views[links@[0] as int].path, f));
                }
            }
        }
        let files = in_block_order(entries, &chosen_files);
        proof {
            law_block_order(views, chosen_files@, files@);
            assert forall|i: int| 0 <= i < files@.len() implies #[trigger] files@[i] < views.len()
                && views[files@[i] as int].kind == Kind::File by {
                assert(files@.contains(files@[i]));
                assert(chosen_files@.contains(files@[i]));
            }
        }
        let mut link_paths: Vec<Vec<char>> = Vec::new();
        let mut i: usize = 0;
        while i < links.len()
            invariant
                i <= links@.len(),
                entries@ == self.index.entries@,
                views == self.index@.entries,
                all_of_kind(views, links@, Kind::Symlink),
                link_paths@.len() == i,
                forall|j: int|
                    0 <= j < i ==> (#[trigger] link_paths@[j])@ == views[links@[j] as int].path,
            decreases links@.len() - i,
        {
            assert(links@[i as int] < views.len());
            assert(views[links@[i as int] as int] == entries@[links@[i as int] as int]@);
            link_paths.push(chars_of(&entries[links[i]].path));
            i += 1;
        }
        Ok(Extraction { dirs, files, links, link_paths, opts: *opts })
    }
}

/// No step leaves the destination, as long as no symlink stood below it before: the
/// step's path is the destination with an archive path behind it, walking along
/// that path never rises above its start, and none of the directories on the way
/// is a symlink that this extraction creates.
pub proof fn law_steps_stay_inside(x: Extraction, entries: Seq<EntryView>, dest: Seq<char>, k: int)
    requires
        x.step_at(entries, dest, k) is Ok,
    ensures
        ({
            let rel = entries[x.subject(k) as int].path;
            &&& stays_inside(split(rel, '/'))
            &&& rel[0] != '/'
            &&& forall|i: int|
                0 <= i < x.links@.len() ==> !is_below(
                    rel,
                    entries[#[trigger] x.links@[i] as int].path,
                )
            &&& step_path(x.step_at(entries, dest, k)->Ok_0) == joined_path(dest, rel)
        }),
{
    law_accepted_paths_stay_inside(entries[x.subject(k) as int].path);
}

/// The path that a step is about.
pub open spec fn step_path(step: StepView) -> Seq<char> {
    match step {
        StepView::MakeDir { path } => path,
        StepView::WriteFile { path, .. } => path,
        StepView::MakeLink { path, .. } => path,
        StepView::SetDirMeta { path, .. } => path,
    }
}

/// Every selected entry has its step, and no other has one.
pub proof fn law_extraction_is_complete(
    x: Extraction,
    entries: Seq<EntryView>,
    filter: Option<Seq<Seq<char>>>,
    e: usize,
)
    requires
        entries.len() <= usize::MAX,
        is_plan_for(x, entries, filter),
        e < entries.len(),
    ensures
        is_wanted(entries[e as int].path, filter) <==> match entries[e as int].kind {
            Kind::Dir => x.dirs@.contains(e),
            Kind::File => x.files@.contains(e),
            Kind::Symlink => x.links@.contains(e),
        },
{
    lemma_chosen(entries, filter, Kind::Dir, entries.len());
    lemma_chosen(entries, filter, Kind::File, entries.len());
    lemma_chosen(entries, filter, Kind::Symlink, entries.len());
    let at = chosen(entries, filter, Kind::File, entries.len());
    law_block_order(entries, at, x.files@);
    match entries[e as int].kind {
        Kind::Dir => {
            if x.dirs@.contains(e) {
                let i = choose|i: int| 0 <= i < x.dirs@.len() && x.dirs@[i] == e;
            }
        },
        Kind::File => {
            if at.contains(e) {
                let i = choose|i: int| 0 <= i < at.len() && at[i] == e;
            }
        },
        Kind::Symlink => {
            if x.links@.contains(e) {
                let i = choose|i: int| 0 <= i < x.links@.len() && x.links@[i] == e;
            }
        },
    }
}

/// No entry is extracted twice.
pub proof fn law_entries_are_extracted_once(
    x: Extraction,
    entries: Seq<EntryView>,
    filter: Option<Seq<Seq<char>>>,
)
    requires
        entries.len() <= usize::MAX,
        is_plan_for(x, entries, filter),
    ensures
        x.dirs@.no_duplicates(),
        x.files@.no_duplicates(),
        x.links@.no_duplicates(),
{
    law_chosen_once(entries, filter, Kind::Dir, entries.len());
    law_chosen_once(entries, filter, Kind::File, entries.len());
    law_chosen_once(entries, filter, Kind::Symlink, entries.len());
    lemma_chosen(entries, filter, Kind::File, entries.len());
    let at = chosen(entries, filter, Kind::File, entries.len());
    assert(at.no_duplicates());
    law_block_order(entries, at, x.files@);
}

/// What a mode keeps: all of its permission bits, and nothing above them.
proof fn lemma_permission_bits(mode: u32)
    ensures
        permission_bits(mode) < 0o10000,
        permission_bits(mode) == mode % 0o10000,
{
    assert(mode & 0o7777 == mode % 0o10000) by (bit_vector);
}

/// `mode` is what a step sets for an entry with the mode `own`: where modes are restored,
/// all twelve permission bits of it, and no bit of the file type; else nothing.
pub open spec fn restores_mode(opts: ExtractOptions, own: u32, mode: Option<u32>) -> bool {
    if opts.restore_mode {
        mode matches Some(m) && m < 0o10000 && m % 0o10000 == own % 0o10000
    } else {
        mode is None
    }
}

/// `mtime` is what a step sets for an entry with this time: where times are restored, the
/// same seconds and nanoseconds; else nothing.
pub open spec fn restores_mtime(
    opts: ExtractOptions,
    seconds: i64,
    nanos: u32,
    mtime: Option<(i64, u32)>,
) -> bool {
    if opts.restore_mtime {
        mtime matches Some(t) && t.0 == seconds && t.1 == nanos
    } else {
        mtime is None
    }
}

/// What is set for an entry are its permission bits and its time, if they are restored.
pub proof fn law_metadata_to_set(opts: ExtractOptions, e: EntryView)
    ensures
        restores_mode(opts, e.mode, mode_to_set(opts, e)),
        restores_mtime(opts, e.mtime, e.mtime_nanos, mtime_to_set(opts, e)),
{
    lemma_permission_bits(e.mode);
    assert(forall|m: u32| m < 0o10000u32 ==> #[trigger] (m % 0o10000u32) == m);
}

/// Every step is about one entry, of the kind that it makes, under the entry's path; and
/// what it sets are that entry's permission bits and time.
pub proof fn law_steps_restore_metadata(
    x: Extraction,
    entries: Seq<EntryView>,
    dest: Seq<char>,
    k: int,
)
    requires
        x.wf(entries),
        0 <= k < x.count(),
        x.step_at(entries, dest, k) is Ok,
    ensures
        ({
            let e = entries[x.subject(k) as int];
            let place = joined_path(dest, e.path);
            &&& x.subject(k) < entries.len()
            &&& match x.step_at(entries, dest, k)->Ok_0 {
                StepView::MakeDir { path } => e.kind == Kind::Dir && path == place,
                StepView::WriteFile { entry, path, mode, mtime } => {
                    &&& e.kind == Kind::File
                    &&& entry == x.subject(k)
                    &&& path == place
                    &&& restores_mode(x.opts, e.mode, mode)
                    &&& restores_mtime(x.opts, e.mtime, e.mtime_nanos, mtime)
                },
                StepView::MakeLink { entry, path, mtime } => {
                    &&& e.kind == Kind::Symlink
                    &&& entry == x.subject(k)
                    &&& path == place
                    &&& restores_mtime(x.opts, e.mtime, e.mtime_nanos, mtime)
                },
                StepView::SetDirMeta { path, mode, mtime } => {
                    &&& e.kind == Kind::Dir
                    &&& path == place
                    &&& restores_mode(x.opts, e.mode, mode)
                    &&& restores_mtime(x.opts, e.mtime, e.mtime_nanos, mtime)
                },
            }
        }),
{
    let d = x.dirs@.len();
    let f = d + x.files@.len();
    let l = f + x.links@.len();
    if k < d {
        assert(x.dirs@[k] < entries.len());
    } else if k < f {
        assert(x.files@[k - d] < entries.len());
    } else if k < l {
        assert(x.links@[k - f] < entries.len());
    } else {
        assert(x.dirs@[d - 1 - (k - l)] < entries.len());
    }
    law_metadata_to_set(x.opts, entries[x.subject(k) as int]);
}

/// Directories are made before anything is put into them; symlinks come after all files;
/// and the permission bits and times of directories come after everything else.
pub proof fn law_steps_are_in_order(
    x: Extraction,
    entries: Seq<EntryView>,
    dest: Seq<char>,
    j: int,
    k: int,
)
    requires
        0 <= j < k < x.count(),
        x.step_at(entries, dest, j) is Ok,
        x.step_at(entries, dest, k) is Ok,
    ensures
        !(x.step_at(entries, dest, j)->Ok_0 is MakeDir) ==> !(x.step_at(
            entries,
            dest,
            k,
        )->Ok_0 is MakeDir),
        x.step_at(entries, dest, j)->Ok_0 is MakeLink ==> !(x.step_at(
            entries,
            dest,
            k,
        )->Ok_0 is WriteFile),
        x.step_at(entries, dest, j)->Ok_0 is SetDirMeta ==> x.step_at(
            entries,
            dest,
            k,
        )->Ok_0 is SetDirMeta,
{
}

/// The directories of an index come in the order of their paths.
pub open spec fn dirs_are_sorted(entries: Seq<EntryView>) -> bool {
    forall|a: int, b: int|
        0 <= a < b < entries.len() && (#[trigger] entries[a]).kind == Kind::Dir && (
        #[trigger] entries[b]).kind == Kind::Dir ==> text_le(entries[a].path, entries[b].path)
}

/// A directory is made before those below it, and gets its permission bits and its time
/// after them.
pub proof fn law_directories_open_and_close(
    x: Extraction,
    entries: Seq<EntryView>,
    filter: Option<Seq<Seq<char>>>,
    dest: Seq<char>,
    j: int,
    k: int,
)
    requires
        entries.len() <= usize::MAX,
        is_plan_for(x, entries, filter),
        dirs_are_sorted(entries),
        0 <= j < x.count(),
        0 <= k < x.count(),
        x.step_at(entries, dest, j) is Ok,
        x.step_at(entries, dest, k) is Ok,
        is_below(entries[x.subject(k) as int].path, entries[x.subject(j) as int].path),
    ensures
        x.step_at(entries, dest, j)->Ok_0 is MakeDir && x.step_at(entries, dest, k)->Ok_0 is MakeDir
            ==> j < k,
        x.step_at(entries, dest, j)->Ok_0 is SetDirMeta && x.step_at(
            entries,
            dest,
            k,
        )->Ok_0 is SetDirMeta ==> k < j,
{
    let n = entries.len();
    let above = entries[x.subject(j) as int].path;
    let below = entries[x.subject(k) as int].path;
    law_chosen_once(entries, filter, Kind::Dir, n);
    lemma_chosen(entries, filter, Kind::Dir, n);
    law_below(below, above, Seq::empty());
    law_text_order(above, seq!['/'] + below.skip(above.len() as int + 1), Seq::empty());
    assert(above + (seq!['/'] + below.skip(above.len() as int + 1)) =~= below);
    assert(!text_le(below, above));
    let d = x.dirs@.len() as int;
    let l = d + x.files@.len() + x.links@.len();
    if k <= j < d {
        assert(chosen(entries, filter, Kind::Dir, n)[k] == x.subject(k));
        assert(chosen(entries, filter, Kind::Dir, n)[j] == x.subject(j));
        assert(x.subject(k) < x.subject(j) || k == j);
    }
    if l <= j <= k {
        let a = d - 1 - (j - l);
        let b = d - 1 - (k - l);
        assert(chosen(entries, filter, Kind::Dir, n)[b] == x.subject(k));
        assert(chosen(entries, filter, Kind::Dir, n)[a] == x.subject(j));
        assert(x.subject(k) < x.subject(j) || k == j);
    }
}

/// An entry is extracted.
pub open spec fn is_extracted(x: Extraction, e: usize) -> bool {
    x.dirs@.contains(e) || x.files@.contains(e) || x.links@.contains(e)
}

/// Without a selection, all entries are extracted.
pub proof fn law_all_is_extracted(x: Extraction, entries: Seq<EntryView>, e: usize)
    requires
        entries.len() <= usize::MAX,
        is_plan_for(x, entries, None),
        e < entries.len(),
    ensures
        is_extracted(x, e),
{
    law_extraction_is_complete(x, entries, None, e);
}

/// Naming a directory or a file extracts it, and all that lies below it, however deep.
pub proof fn law_named_subtree_is_extracted(
    x: Extraction,
    entries: Seq<EntryView>,
    patterns: Seq<Seq<char>>,
    i: int,
    rest: Seq<char>,
    e: usize,
)
    requires
        entries.len() <= usize::MAX,
        is_plan_for(x, entries, Some(patterns)),
        0 <= i < patterns.len(),
        patterns[i].len() > 0,
        patterns[i].last() != '/',
        e < entries.len(),
        entries[e as int].path == patterns[i] || entries[e as int].path == patterns[i] + seq!['/']
            + rest,
    ensures
        is_extracted(x, e),
{
    law_directory_selects_what_is_below(patterns[i], rest);
    assert(selects(entries[e as int].path, patterns[i]));
    law_extraction_is_complete(x, entries, Some(patterns), e);
}

/// Nothing is extracted that no pattern names: the path of whatever is extracted is one of
/// them, or lies below one. (Where the patterns are nonempty and end with no slash.)
pub proof fn law_only_named_subtrees_are_extracted(
    x: Extraction,
    entries: Seq<EntryView>,
    patterns: Seq<Seq<char>>,
    e: usize,
)
    requires
        entries.len() <= usize::MAX,
        is_plan_for(x, entries, Some(patterns)),
        forall|i: int|
            0 <= i < patterns.len() ==> (#[trigger] patterns[i]).len() > 0 && patterns[i].last()
                != '/',
        is_extracted(x, e),
    ensures
        e < entries.len(),
        exists|i: int|
            0 <= i < patterns.len() && (entries[e as int].path == #[trigger] patterns[i]
                || is_below(entries[e as int].path, patterns[i])),
{
    let filter = Some(patterns);
    let n = entries.len();
    lemma_chosen(entries, filter, Kind::Dir, n);
    lemma_chosen(entries, filter, Kind::File, n);
    lemma_chosen(entries, filter, Kind::Symlink, n);
    let at = chosen(entries, filter, Kind::File, n);
    law_block_order(entries, at, x.files@);
    if x.dirs@.contains(e) {
        let i = choose|i: int| 0 <= i < x.dirs@.len() && x.dirs@[i] == e;
    } else if x.files@.contains(e) {
        assert(at.contains(e));
        let i = choose|i: int| 0 <= i < at.len() && at[i] == e;
    } else {
        let i = choose|i: int| 0 <= i < x.links@.len() && x.links@[i] == e;
    }
    let path = entries[e as int].path;
    assert(is_wanted(path, filter));
    let i = choose|i: int| 0 <= i < patterns.len() && selects(path, #[trigger] patterns[i]);
    let p = patterns[i];
    law_selects_nothing_else(path, p, p.len() - 1);
    if path.len() == p.len() {
        assert(path =~= p);
    } else {
        assert(path.subrange(0, p.len() as int + 1) =~= p.push('/'));
    }
}

/// The bytes of some entries add up: those of one are its size, and those of two lists of
/// entries are the bytes of the one and of the other.
pub proof fn law_bytes_add_up(entries: Seq<EntryView>, a: Seq<usize>, b: Seq<usize>, k: usize)
    ensures
        bytes_of(entries, seq![k]) == entries[k as int].size,
        bytes_of(entries, a + b) == bytes_of(entries, a) + bytes_of(entries, b),
    decreases b.len(),
{
    reveal_with_fuel(bytes_of, 2);
    assert(seq![k].drop_last() =~= Seq::<usize>::empty());
    if b.len() == 0 {
        assert(a + b =~= a);
    } else {
        law_bytes_add_up(entries, a, b.drop_last(), k);
        assert((a + b).drop_last() =~= a + b.drop_last());
    }
}

} // verus!
