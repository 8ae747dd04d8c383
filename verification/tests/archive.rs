use embr_format::error::{Error, Fault};
use embr_format::extract::Step;
use embr_format::index::BlockInfo;
use embr_format::paths::PathPart;
use embr_format::plan::{Item, What};
use embr_format::reading::{HeldFiles, ReadBy};
use embr_format::stream::{Collected, FetchBy, GiveTo, Held, Journal, Output, TellBy};
use embr_format::{
    create, Archive, Codec, Entry, ExtractOptions, Index, Kind, Segment, WriteOptions, WriteStats,
};
use std::cell::{Cell, RefCell};
use std::collections::BTreeMap;

fn fault<T>(r: Result<T, Error>) -> Option<Fault> {
    r.err().map(|e| e.fault)
}

fn slice_of(data: &[u8], o: u64, l: u64) -> Result<Vec<u8>, std::io::Error> {
    let len = data.len() as u64;
    let from = o.min(len);
    let to = o.saturating_add(l).min(len);
    Ok(data[from as usize..to as usize].to_vec())
}

fn full(_: Vec<u8>) -> Result<(), std::io::Error> {
    Err(std::io::Error::new(std::io::ErrorKind::Other, "full"))
}

fn broken() -> Result<Vec<u8>, std::io::Error> {
    Err(std::io::Error::new(std::io::ErrorKind::Other, "broken"))
}

fn collected() -> Collected {
    Collected { bytes: Vec::new() }
}

fn journal() -> Journal {
    Journal { lines: Vec::new() }
}

/// A tree in memory: the walk through it, and what its files read as.
#[derive(Default)]
struct Tree {
    items: Vec<Item>,
    files: Vec<Vec<u8>>,
}

fn parts(path: &str) -> Vec<PathPart> {
    path.split('/').map(|p| PathPart::Normal(p.to_string())).collect()
}

impl Tree {
    fn dir(&mut self, path: &str) {
        self.add(path, 0o40755, What::Dir);
    }
    fn link(&mut self, path: &str, target: &str) {
        self.add(path, 0o120777, What::Symlink(target.to_string()));
    }
    fn file(&mut self, path: &str, contents: &[u8]) {
        self.add(path, 0o100644, What::File(contents.len() as u64));
        self.files.push(contents.to_vec());
    }
    fn add(&mut self, path: &str, mode: u32, what: What) {
        self.items.push(Item { parts: parts(path), mode, mtime: 1_700_000_000, mtime_nanos: 5, what });
    }
    fn archive(self, opts: &WriteOptions) -> Result<(Vec<u8>, WriteStats), Error> {
        let files = self.files;
        archive_of(&vec![self.items], &files, opts)
    }
}

fn archive_of(
    inputs: &Vec<Vec<Item>>,
    files: &[Vec<u8>],
    opts: &WriteOptions,
) -> Result<(Vec<u8>, WriteStats), Error> {
    let mut out = Output::new();
    let mut files = HeldFiles::new(files.to_vec());
    let mut sink = collected();
    let mut told = journal();
    let stats = create(&mut out, inputs, opts, &mut files, &mut sink, &mut told)?;
    assert_eq!(told.lines, ["scanning", "hashing", "packing", "writing index"]);
    Ok((sink.bytes, stats))
}

/// A small tree with duplicates, symlinks, nested dirs and a media file.
fn fixture() -> Tree {
    let mut t = Tree::default();
    let text = "fn main() { println!(\"hello\"); }\n".repeat(200);
    t.dir("tree");
    t.file("tree/README", b"readme\n");
    t.dir("tree/assets");
    // Fast-lane file: extension says already-compressed.
    t.file("tree/assets/photo.jpg", &vec![0xABu8; 40_000]);
    t.file("tree/empty.txt", b"");
    t.link("tree/link.rs", "src/main.rs");
    t.dir("tree/src");
    t.dir("tree/src/deep");
    t.file("tree/src/deep/copy.rs", text.as_bytes()); // exact duplicate
    t.file("tree/src/lib.rs", "pub mod a;\n".repeat(50).as_bytes());
    t.file("tree/src/main.rs", text.as_bytes());
    t
}

/// What extraction made of an archive.
#[derive(Default)]
struct Disk {
    dirs: Vec<String>,
    files: BTreeMap<String, Vec<u8>>,
    modes: BTreeMap<String, Option<u32>>,
    links: BTreeMap<String, String>,
    closed: Vec<String>,
}

fn extract_all(
    data: &[u8],
    filter: Option<Vec<String>>,
    opts: &ExtractOptions,
) -> Result<Disk, Error> {
    let mut fetch = Held::new(data.to_vec());
    let mut a = Archive::open(data.len() as u64, &mut fetch)?;
    let plan = a.extract(&filter, opts)?;
    let mut disk = Disk::default();
    let mut k = 0;
    while let Some(step) = plan.step(&a.index.entries, "out", k)? {
        match step {
            Step::MakeDir { path } => disk.dirs.push(path),
            Step::WriteFile { entry, path, mode, mtime: _ } => {
                plan.admit_file(disk.files.contains_key(&path))?;
                let e = a.index.entries[entry].clone();
                let mut got = collected();
                a.extract_file_to(&e, opts.verify, &mut fetch, &mut got, &mut Output::new())?;
                disk.modes.insert(path.clone(), mode);
                disk.files.insert(path, got.bytes);
            }
            Step::MakeLink { entry, path, mtime } => {
                assert_eq!(mtime, Some((1_700_000_000, 5)));
                let target = plan.admit_link(&a.index.entries[entry], disk.links.contains_key(&path))?;
                disk.links.insert(path, target);
            }
            Step::SetDirMeta { path, mode, mtime } => {
                assert_eq!(mtime, Some((1_700_000_000, 5)));
                assert_eq!(mode, Some(0o755));
                disk.closed.push(path);
            }
        }
        k += 1;
    }
    let stats = plan.stats(&a.index.entries).unwrap();
    assert_eq!(stats.files, disk.files.len() as u64);
    assert_eq!(stats.dirs, disk.dirs.len() as u64);
    assert_eq!(stats.symlinks, disk.links.len() as u64);
    assert_eq!(stats.bytes, disk.files.values().map(|f| f.len() as u64).sum::<u64>());
    Ok(disk)
}

fn roundtrip(opts: WriteOptions) {
    let src = fixture();
    let contents: Vec<Vec<u8>> = src.files.clone();
    let (data, stats) = src.archive(&opts).unwrap();
    assert_eq!(stats.files, 6);
    assert_eq!(stats.symlinks, 1);
    assert_eq!(stats.dirs, 4);
    assert_eq!(stats.archive_bytes, data.len() as u64);
    assert_eq!(stats.input_bytes, contents.iter().map(|f| f.len() as u64).sum::<u64>());

    let out = extract_all(&data, None, &ExtractOptions::default()).unwrap();
    assert_eq!(out.files["out/tree/README"], contents[0]);
    assert_eq!(out.files["out/tree/assets/photo.jpg"], contents[1]);
    assert_eq!(out.files["out/tree/empty.txt"].len(), 0);
    assert_eq!(out.files["out/tree/src/deep/copy.rs"], contents[3]);
    assert_eq!(out.files["out/tree/src/lib.rs"], contents[4]);
    assert_eq!(out.files["out/tree/src/main.rs"], contents[5]);
    assert_eq!(out.links["out/tree/link.rs"], "src/main.rs");
    assert_eq!(out.dirs, ["out/tree", "out/tree/assets", "out/tree/src", "out/tree/src/deep"]);
    let mut closed = out.closed.clone();
    closed.reverse();
    assert_eq!(closed, out.dirs);
    assert_eq!(out.modes["out/tree/README"], Some(0o644));

    let mut fetch = Held::new(data.clone());
    let mut a = Archive::open(data.len() as u64, &mut fetch).unwrap();
    assert_eq!(a.verify(&mut fetch, &mut journal()).unwrap(), 6);
    assert_eq!(a.total_size(), stats.input_bytes);
    assert_eq!(a.index.blocks.len() as u64, stats.blocks);
    assert_eq!(a.index.created_by, "embr 0.1.0");
    let raw: u64 = a.index.blocks.iter().map(|b| b.rlen).sum();
    assert_eq!(raw + stats.deduped_bytes, stats.input_bytes);
    for e in a.entries() {
        assert!(e.segments.len() <= 1);
    }
}

#[test]
fn roundtrip_zstd() {
    roundtrip(WriteOptions::default());
}

#[test]
fn roundtrip_xz() {
    roundtrip(WriteOptions { codec: Codec::Xz, level: 6, ..Default::default() });
}

#[test]
fn roundtrip_tiny_blocks() {
    // Forces multiple blocks and the oversized-file path.
    roundtrip(WriteOptions { block_size: 4096, ..Default::default() });
}

#[test]
fn roundtrip_without_dedup_or_fast_lane() {
    roundtrip(WriteOptions { dedup: false, fast_lane: false, ..Default::default() });
}

#[test]
fn roundtrip_store() {
    roundtrip(WriteOptions { codec: Codec::Store, level: 0, ..Default::default() });
}

#[test]
fn dedup_collapses_identical_files() {
    let mut src = Tree::default();
    src.dir("tree");
    let blob = vec![7u8; 200_000];
    for i in 0..5 {
        src.file(&format!("tree/copy{i}.bin"), &blob);
    }
    let (data, stats) = src.archive(&WriteOptions::default()).unwrap();
    assert_eq!(stats.deduped_files, 4);
    assert_eq!(stats.deduped_bytes, 800_000);
    let mut fetch = Held::new(data.clone());
    let a = Archive::open(data.len() as u64, &mut fetch).unwrap();
    let files: Vec<&Entry> = a.entries().iter().filter(|e| e.kind == Kind::File).collect();
    for e in &files {
        assert_eq!(e.segments, files[0].segments);
    }
}

#[test]
fn without_dedup_every_file_is_stored() {
    let mut src = Tree::default();
    for i in 0..3 {
        src.file(&format!("copy{i}.bin"), &[1u8; 100]);
    }
    let opts = WriteOptions { dedup: false, ..Default::default() };
    let (data, stats) = src.archive(&opts).unwrap();
    assert_eq!((stats.deduped_files, stats.deduped_bytes), (0, 0));
    let mut fetch = Held::new(data.clone());
    let a = Archive::open(data.len() as u64, &mut fetch).unwrap();
    assert_eq!(a.index.blocks.len(), 1);
    assert_eq!(a.index.blocks[0].rlen, 300);
}

/// A lane change, a full block, and a file at the block size each seal the
/// pending block.
#[test]
fn packing_seals_blocks() {
    let mut src = Tree::default();
    src.file("a.rs", &[1; 60]);
    src.file("b.rs", &[2; 60]);
    src.file("c.rs", &[3; 100]);
    src.file("d.rs", &[4; 10]);
    src.file("p.jpg", &[5; 10]);
    src.file("q.jpg", &[6; 10]);
    let opts = WriteOptions { codec: Codec::Store, block_size: 100, ..Default::default() };
    let (data, stats) = src.archive(&opts).unwrap();
    assert_eq!(stats.blocks, 5);
    let mut fetch = Held::new(data.clone());
    let a = Archive::open(data.len() as u64, &mut fetch).unwrap();
    let lens: Vec<u64> = a.index.blocks.iter().map(|b| b.rlen).collect();
    assert_eq!(lens, [60, 60, 100, 10, 20]);
    let codecs: Vec<u8> = a.index.blocks.iter().map(|b| b.codec).collect();
    assert_eq!(codecs, [0, 0, 0, 0, 1]);
    let at: Vec<Segment> = a.entries().iter().map(|e| e.segments[0]).collect();
    assert_eq!(at[4], Segment { block: 4, offset: 0, len: 10 });
    assert_eq!(at[5], Segment { block: 4, offset: 10, len: 10 });
    // Blocks lie end to end behind the header, and the index behind them.
    let mut end = 16;
    for b in &a.index.blocks {
        assert_eq!(b.offset, end);
        end += b.clen;
    }
    assert_eq!(a.footer.index_offset, end);
    assert_eq!(&data[16..76], &[1u8; 60]);
}

/// The index lists directories, then files, then symlinks, each by path.
#[test]
fn entries_are_listed_by_kind_and_path() {
    let mut src = Tree::default();
    src.link("a", "x");
    src.file("z.rs", b"z");
    src.file("b.py", b"b");
    src.dir("y");
    src.dir("c");
    let (data, _) = src.archive(&WriteOptions::default()).unwrap();
    let mut fetch = Held::new(data.clone());
    let a = Archive::open(data.len() as u64, &mut fetch).unwrap();
    let paths: Vec<&str> = a.entries().iter().map(|e| e.path.as_str()).collect();
    assert_eq!(paths, ["c", "y", "b.py", "z.rs", "a"]);
}

#[test]
fn nothing_to_archive_is_refused() {
    let mut out = Output::new();
    let mut files = ReadBy::new(|_: usize, _: u64, _: u64| panic!("nothing is read"));
    let mut told = journal();
    let opts = WriteOptions::default();
    let r = create(&mut out, &vec![], &opts, &mut files, &mut GiveTo::new(full), &mut told);
    assert_eq!(fault(r), Some(Fault::NoInputs));
    assert!(told.lines.is_empty());
    assert_eq!(out.position(), 0);
    // An input that holds nothing gives an archive that holds nothing.
    let (data, stats) = archive_of(&vec![vec![]], &[], &WriteOptions::default()).unwrap();
    assert_eq!((stats.files, stats.blocks), (0, 0));
    let out = extract_all(&data, None, &ExtractOptions::default()).unwrap();
    assert!(out.files.is_empty() && out.dirs.is_empty() && out.links.is_empty());
}

#[test]
fn odd_items_are_skipped_and_bad_ones_refused() {
    let mut src = Tree::default();
    src.add("socket", 0, What::Other);
    src.items.push(Item { parts: vec![], mode: 0, mtime: 0, mtime_nanos: 0, what: What::Dir });
    let (_, stats) = src.archive(&WriteOptions::default()).unwrap();
    assert_eq!(stats, WriteStats { archive_bytes: stats.archive_bytes, ..Default::default() });
    let mut bad = Tree::default();
    bad.items.push(Item {
        parts: vec![PathPart::Other],
        mode: 0,
        mtime: 0,
        mtime_nanos: 0,
        what: What::Dir,
    });
    assert_eq!(
        fault(bad.archive(&WriteOptions::default())),
        Some(Fault::UnsupportedComponent)
    );
}

#[test]
fn a_file_that_changes_size_is_reported() {
    let mut src = Tree::default();
    src.file("a.rs", &[1; 10]);
    src.files[0] = vec![1; 11];
    assert_eq!(
        fault(src.archive(&WriteOptions::default())),
        Some(Fault::SizeChanged { got: 11, want: 10 })
    );
    let mut large = Tree::default();
    large.file("a.rs", &[1; 10]);
    large.files[0] = vec![1; 9];
    let opts = WriteOptions { block_size: 10, ..Default::default() };
    assert_eq!(fault(large.archive(&opts)), Some(Fault::ShortBlock { got: 9, want: 10 }));
}

#[test]
fn unreadable_files_surface_before_anything_is_written() {
    let mut src = Tree::default();
    src.file("a.rs", &[1; 10]);
    let mut files = ReadBy::new(|_: usize, _: u64, _: u64| broken());
    let pieces: RefCell<Vec<Vec<u8>>> = RefCell::new(Vec::new());
    let mut sink = GiveTo::new(|bytes: Vec<u8>| Ok(pieces.borrow_mut().push(bytes)));
    let mut told = journal();
    let mut out = Output::new();
    let opts = WriteOptions::default();
    let r = create(&mut out, &vec![src.items], &opts, &mut files, &mut sink, &mut told);
    assert_eq!(fault(r), Some(Fault::Unreadable));
    assert!(pieces.borrow().is_empty());
    assert_eq!(out.position(), 0);
    assert_eq!(told.lines, ["scanning", "hashing"]);
}

/// Without inputs nothing is told, read or written; of a walk that is refused only that
/// it was begun.
#[test]
fn refused_inputs_leave_everything_alone() {
    let opts = WriteOptions::default();
    let reads = Cell::new(0);
    let mut files = ReadBy::new(|_: usize, _: u64, _: u64| {
        reads.set(reads.get() + 1);
        Ok(Vec::new())
    });
    let pieces: RefCell<Vec<Vec<u8>>> = RefCell::new(Vec::new());
    let mut sink = GiveTo::new(|bytes: Vec<u8>| Ok(pieces.borrow_mut().push(bytes)));
    let mut told = journal();
    let r = create(&mut Output::new(), &vec![], &opts, &mut files, &mut sink, &mut told);
    assert_eq!(fault(r), Some(Fault::NoInputs));
    assert!(told.lines.is_empty());
    let mut src = Tree::default();
    src.file("a/../b", b"b");
    let inputs = vec![src.items];
    let r = create(&mut Output::new(), &inputs, &opts, &mut files, &mut sink, &mut told);
    assert_eq!(fault(r), Some(Fault::EscapingPath));
    assert_eq!(told.lines, ["scanning"]);
    assert!(pieces.borrow().is_empty());
    assert_eq!(reads.get(), 0);
}

/// What the sink takes is the archive, in the pieces in which it was handed on; a sink
/// that fails keeps what it took before.
#[test]
fn the_sink_takes_the_archive() {
    let mut src = Tree::default();
    src.file("a.rs", &[1; 60]);
    src.file("b.rs", &[2; 70]);
    src.file("c.rs", &[3; 80]);
    let opts = WriteOptions { codec: Codec::Store, block_size: 50, ..Default::default() };
    let (inputs, held) = (vec![src.items], src.files);
    let (data, stats) = archive_of(&inputs, &held, &opts).unwrap();
    assert_eq!(stats.archive_bytes, data.len() as u64);
    for n in 0..4 {
        let mut files = HeldFiles::new(held.clone());
        let taken: RefCell<Vec<u8>> = RefCell::new(Vec::new());
        let left = Cell::new(n);
        // Takes what it is given a number of times, and then nothing more.
        let mut sink = GiveTo::new(|bytes: Vec<u8>| {
            if left.get() == 0 {
                return full(bytes);
            }
            left.set(left.get() - 1);
            Ok(taken.borrow_mut().extend(bytes))
        });
        let mut out = Output::new();
        let r = create(&mut out, &inputs, &opts, &mut files, &mut sink, &mut journal());
        assert_eq!(fault(r), Some(Fault::Sink));
        assert!(data.starts_with(&taken.borrow()));
        assert_eq!(taken.borrow().is_empty(), n == 0);
    }
}

#[test]
fn a_full_sink_is_reported() {
    let mut src = Tree::default();
    src.file("a.rs", &[1; 10]);
    let files = src.files.clone();
    let r = create(
        &mut Output::new(),
        &vec![src.items],
        &WriteOptions::default(),
        &mut HeldFiles::new(files),
        &mut GiveTo::new(full),
        &mut journal(),
    );
    assert_eq!(fault(r), Some(Fault::Sink));
}

fn small() -> Vec<u8> {
    let mut src = Tree::default();
    src.dir("d");
    src.file("d/a.rs", b"aaaa");
    src.file("d/b.rs", b"bbbb");
    let opts = WriteOptions { codec: Codec::Store, ..Default::default() };
    src.archive(&opts).unwrap().0
}

fn open_fault(data: &[u8]) -> Option<Fault> {
    fault(Archive::open(data.len() as u64, &mut Held::new(data.to_vec())))
}

#[test]
fn broken_archives_do_not_open() {
    let data = small();
    assert_eq!(open_fault(&data), None);
    assert_eq!(open_fault(&data[..10]), Some(Fault::TooShort));
    assert_eq!(open_fault(&data[..70]), Some(Fault::TooShort));
    assert_eq!(open_fault(&data[..data.len() - 1]), Some(Fault::NoFooter));
    let mut other = data.clone();
    other[0] = b'X';
    assert_eq!(open_fault(&other), Some(Fault::BadMagic));
    let mut newer = data.clone();
    newer[4] = 2;
    assert_eq!(open_fault(&newer), Some(Fault::NewerVersion(2)));
    // Bytes missing between the blocks and the footer.
    let mut cut = data.clone();
    let n = cut.len();
    cut.drain(n - 70..n - 64);
    assert!(open_fault(&cut).is_some());
}

#[test]
fn corruption_is_found() {
    let mut data = small();
    data[16] ^= 1;
    let mut fetch = Held::new(data.clone());
    let mut a = Archive::open(data.len() as u64, &mut fetch).unwrap();
    assert_eq!(fault(a.verify(&mut fetch, &mut journal())), Some(Fault::Checksum));
    let e = a.index.entries[1].clone();
    assert_eq!(a.read_file(&e, &mut fetch).unwrap(), b"`aaa".to_vec());
    assert_eq!(
        fault(extract_all(&data, None, &ExtractOptions::default())),
        Some(Fault::Checksum)
    );
    let unchecked = ExtractOptions { verify: false, ..Default::default() };
    assert_eq!(extract_all(&data, None, &unchecked).unwrap().files["out/d/a.rs"], b"`aaa");
    assert_eq!(extract_all(&data, None, &unchecked).unwrap().files["out/d/b.rs"], b"bbbb");
}

#[test]
fn segments_are_checked() {
    let data = small();
    let mut fetch = Held::new(data.clone());
    let mut a = Archive::open(data.len() as u64, &mut fetch).unwrap();
    let mut e = a.index.entries[1].clone();
    // A reader accepts any number of segments.
    e.segments = vec![
        Segment { block: 0, offset: 5, len: 2 },
        Segment { block: 0, offset: 0, len: 3 },
        Segment { block: 0, offset: 8, len: 0 },
    ];
    assert_eq!(a.read_file(&e, &mut fetch).unwrap(), b"bbaaa".to_vec());
    e.segments[1].len = 9;
    assert_eq!(fault(a.read_file(&e, &mut fetch)), Some(Fault::SegmentRange));
    e.segments[1] = Segment { block: 0, offset: u64::MAX, len: 2 };
    assert_eq!(fault(a.read_file(&e, &mut fetch)), Some(Fault::SegmentRange));
    e.segments[1] = Segment { block: 7, offset: 0, len: 0 };
    assert_eq!(fault(a.read_file(&e, &mut fetch)), Some(Fault::MissingBlock(7)));
    a.index.blocks.push(BlockInfo { offset: 16, clen: 4, rlen: 4, codec: 9 });
    e.segments[1] = Segment { block: 1, offset: 0, len: 0 };
    assert_eq!(fault(a.read_file(&e, &mut fetch)), Some(Fault::UnknownCodec(9)));
    a.index.blocks[1].codec = 1;
    assert_eq!(fault(a.read_file(&e, &mut fetch)), Some(Fault::BlockFrame));
    a.index.blocks[1].codec = 0;
    a.index.blocks[1].rlen = 5;
    assert_eq!(
        fault(a.read_file(&e, &mut fetch)),
        Some(Fault::BlockLength { got: 4, want: 5 })
    );
    let mut nothing = FetchBy::new(|_: u64, _: u64| broken());
    assert_eq!(fault(a.read_file(&e, &mut nothing)), Some(Fault::Source));
}

/// An archive is opened with three requests, and files that share a block are read with
/// one request for it.
#[test]
fn a_shared_block_is_fetched_once() {
    let data = small();
    let places = RefCell::new(Vec::new());
    let mut fetch = FetchBy::new(|o: u64, l: u64| {
        places.borrow_mut().push((o, l));
        slice_of(&data, o, l)
    });
    let mut a = Archive::open(data.len() as u64, &mut fetch).unwrap();
    a.verify(&mut fetch, &mut journal()).unwrap();
    let index = (a.footer.index_offset, a.footer.index_clen);
    assert_eq!(places.into_inner(), [(0, 16), (data.len() as u64 - 64, 64), index, (16, 8)]);
}

/// Reading one file asks for the block that it lies in, and for no other.
#[test]
fn one_file_asks_for_its_own_block() {
    let mut src = Tree::default();
    src.file("a.rs", &[1; 60]);
    src.file("b.rs", &[2; 60]);
    src.file("c.rs", &[3; 60]);
    let opts = WriteOptions { codec: Codec::Store, block_size: 100, ..Default::default() };
    let (data, _) = src.archive(&opts).unwrap();
    let mut a = Archive::open(data.len() as u64, &mut Held::new(data.clone())).unwrap();
    let places = RefCell::new(Vec::new());
    let mut fetch = FetchBy::new(|o: u64, l: u64| {
        places.borrow_mut().push((o, l));
        slice_of(&data, o, l)
    });
    let e = a.index.entries[1].clone();
    let mut got = collected();
    let mut out = Output::new();
    a.extract_file_to(&e, true, &mut fetch, &mut got, &mut out).unwrap();
    assert_eq!(got.bytes, [2; 60]);
    // The block is kept, so that the next read of it asks for nothing.
    assert_eq!(a.read_file(&e, &mut fetch).unwrap(), [2; 60]);
    assert_eq!(places.into_inner(), [(76, 60)]);
}

/// Checking decodes every block, also one that no file lies in.
#[test]
fn checking_covers_blocks_without_files() {
    let data = small();
    let mut fetch = Held::new(data.clone());
    let mut a = Archive::open(data.len() as u64, &mut fetch).unwrap();
    let lines = RefCell::new(Vec::new());
    let mut told = TellBy::new(|path: &str| lines.borrow_mut().push(path.to_string()));
    a.index.blocks.push(BlockInfo { offset: 16, clen: 8, rlen: 8, codec: 0 });
    assert_eq!(a.verify(&mut fetch, &mut told).unwrap(), 2);
    assert_eq!(lines.into_inner(), ["d/a.rs", "d/b.rs"]);
    a.index.blocks[1].rlen = 7;
    assert_eq!(
        fault(a.verify(&mut fetch, &mut journal())),
        Some(Fault::BlockLength { got: 8, want: 7 })
    );
    a.index.blocks[1].codec = 9;
    assert_eq!(fault(a.verify(&mut fetch, &mut journal())), Some(Fault::UnknownCodec(9)));
}

/// What can be read from one place only is not made up for another.
#[test]
fn a_failed_read_is_reported() {
    let data = small();
    let mut fetch = Held::new(data.clone());
    let len = data.len() as u64;
    let mut a = Archive::open(len, &mut fetch).unwrap();
    let mut nothing = FetchBy::new(|_: u64, _: u64| broken());
    let mut told = journal();
    assert_eq!(fault(a.verify(&mut nothing, &mut told)), Some(Fault::Source));
    // The file that could not be read has been told of, and no other.
    assert_eq!(told.lines, ["d/a.rs"]);
    assert_eq!(fault(Archive::open(len, &mut nothing)), Some(Fault::TooShort));
    let mut head = FetchBy::new(|o: u64, l: u64| if o == 0 { slice_of(&data, o, l) } else { broken() });
    assert_eq!(fault(Archive::open(len, &mut head)), Some(Fault::Source));
    let mut no_index = FetchBy::new(|o: u64, l: u64| {
        if o == 0 || o == len - 64 {
            slice_of(&data, o, l)
        } else {
            broken()
        }
    });
    assert_eq!(fault(Archive::open(len, &mut no_index)), Some(Fault::IndexCut));
}

/// Where a segment cannot be had, those before it have been handed on.
#[test]
fn what_came_before_a_bad_segment_is_handed_on() {
    let data = small();
    let mut fetch = Held::new(data.clone());
    let mut a = Archive::open(data.len() as u64, &mut fetch).unwrap();
    let mut e = a.index.entries[1].clone();
    e.segments = vec![
        Segment { block: 0, offset: 0, len: 4 },
        Segment { block: 0, offset: 6, len: 2 },
        Segment { block: 5, offset: 0, len: 1 },
    ];
    let pieces: RefCell<Vec<Vec<u8>>> = RefCell::new(Vec::new());
    let mut got = GiveTo::new(|bytes: Vec<u8>| Ok(pieces.borrow_mut().push(bytes)));
    let mut out = Output::new();
    let r = a.write_file_to(&e, &mut fetch, &mut got, &mut out);
    assert_eq!(fault(r), Some(Fault::MissingBlock(5)));
    assert_eq!(out.position(), 6);
    assert_eq!(pieces.into_inner(), [b"aaaa".to_vec(), b"bb".to_vec()]);
    // A file without segments needs neither the archive nor the sink.
    e.segments = vec![];
    assert!(a.write_file_to(&e, &mut fetch, &mut GiveTo::new(full), &mut Output::new()).is_ok());
    e.segments = vec![Segment { block: 0, offset: 0, len: 4 }];
    let r = a.write_file_to(&e, &mut fetch, &mut GiveTo::new(full), &mut Output::new());
    assert_eq!(fault(r), Some(Fault::Sink));
}

/// A full extract asks for each block once, in the order of the archive.
#[test]
fn a_full_extract_is_one_pass() {
    let mut src = Tree::default();
    for name in ["c.rs", "a.rs", "b.rs", "e.py", "d.jpg"] {
        src.file(name, name.repeat(9).as_bytes());
    }
    let opts = WriteOptions { codec: Codec::Store, block_size: 80, ..Default::default() };
    let (data, stats) = src.archive(&opts).unwrap();
    let mut a = Archive::open(data.len() as u64, &mut Held::new(data.clone())).unwrap();
    let places = RefCell::new(Vec::new());
    let mut fetch = FetchBy::new(|o: u64, l: u64| {
        places.borrow_mut().push((o, l));
        slice_of(&data, o, l)
    });
    let plan = a.extract(&None, &ExtractOptions::default()).unwrap();
    for k in plan.files {
        let e = a.index.entries[k].clone();
        let mut got = collected();
        a.extract_file_to(&e, true, &mut fetch, &mut got, &mut Output::new()).unwrap();
        assert_eq!(got.bytes, e.path.repeat(9).as_bytes());
    }
    let blocks: Vec<(u64, u64)> = a.index.blocks.iter().map(|b| (b.offset, b.clen)).collect();
    assert_eq!(stats.blocks, 3);
    assert_eq!(places.into_inner(), blocks);
}

/// One path archived twice gives two entries, each with a place of its own.
#[test]
fn a_path_can_be_archived_twice() {
    let mut src = Tree::default();
    src.file("a.rs", b"first");
    src.file("a.rs", b"other");
    let opts = WriteOptions { codec: Codec::Store, dedup: false, ..Default::default() };
    let (data, stats) = src.archive(&opts).unwrap();
    let mut fetch = Held::new(data.clone());
    let mut a = Archive::open(data.len() as u64, &mut fetch).unwrap();
    let (one, two) = (a.index.entries[0].clone(), a.index.entries[1].clone());
    assert_eq!(a.total_size(), stats.input_bytes);
    assert_eq!((one.segments[0].offset, two.segments[0].offset), (0, 5));
    assert_eq!(a.read_file(&one, &mut fetch).unwrap(), b"first");
    assert_eq!(a.read_file(&two, &mut fetch).unwrap(), b"other");
    // They share a block, which is within the block size.
    assert_eq!(a.index.blocks[0].rlen, 10);
}

/// Whoever knows the footer of an archive refuses the archive cut off before its index
/// ends.
#[test]
fn a_cut_off_index_is_refused() {
    let data = small();
    let a = Archive::open(data.len() as u64, &mut Held::new(data.clone())).unwrap();
    assert!(a.footer.index_clen > 0);
    let end = a.footer.index_offset + a.footer.index_clen;
    assert_eq!(end + 64, data.len() as u64);
    for n in 0..end as usize {
        let r = Index::read(&mut Held::new(data[..n].to_vec()), &a.footer);
        assert_eq!(fault(r), Some(Fault::IndexCut));
    }
    assert!(Index::read(&mut Held::new(data[..end as usize].to_vec()), &a.footer).is_ok());
}

/// Files lie in the order of the sort, none over another, each in one piece.
#[test]
fn places_do_not_overlap() {
    let mut src = Tree::default();
    for (i, name) in ["b/x.rs", "a/y.rs", "c/z.py", "q.jpg", "r.png"].iter().enumerate() {
        src.file(name, &vec![i as u8; 30 + i]);
    }
    let opts = WriteOptions { codec: Codec::Store, block_size: 64, ..Default::default() };
    let (data, _) = src.archive(&opts).unwrap();
    let mut fetch = Held::new(data.clone());
    let a = Archive::open(data.len() as u64, &mut fetch).unwrap();
    let place = |path: &str| {
        let e = a.entries().iter().find(|e| e.path == path).unwrap();
        assert_eq!(e.segments.len(), 1);
        assert_eq!(e.segments[0].len, e.size);
        let s = e.segments[0];
        assert!(s.offset + s.len <= a.index.blocks[s.block as usize].rlen);
        s
    };
    let order = ["c/z.py", "a/y.rs", "b/x.rs", "q.jpg", "r.png"].map(place);
    for w in order.windows(2) {
        let (s, t) = (w[0], w[1]);
        assert!(s.block < t.block || s.block == t.block && s.offset + s.len <= t.offset);
    }
    let codecs: Vec<u8> = order.iter().map(|s| a.index.blocks[s.block as usize].codec).collect();
    assert_eq!(codecs, [0, 0, 0, 1, 1]);
}

#[test]
fn writing_a_file_streams_it() {
    let data = small();
    let mut fetch = Held::new(data.clone());
    let mut a = Archive::open(data.len() as u64, &mut fetch).unwrap();
    let e = a.index.entries[2].clone();
    let mut got = collected();
    let mut out = Output::new();
    a.write_file_to(&e, &mut fetch, &mut got, &mut out).unwrap();
    assert_eq!(got.bytes, b"bbbb".to_vec());
    assert_eq!(out.position(), 4);
}

#[test]
fn selections_pick_files_and_directories() {
    let (data, _) = fixture().archive(&WriteOptions::default()).unwrap();
    let opts = ExtractOptions::default();
    let out = extract_all(&data, Some(vec!["tree/src/".to_string()]), &opts).unwrap();
    let got: Vec<&String> = out.files.keys().collect();
    assert_eq!(got, ["out/tree/src/deep/copy.rs", "out/tree/src/lib.rs", "out/tree/src/main.rs"]);
    assert_eq!(out.dirs, ["out/tree/src", "out/tree/src/deep"]);
    assert!(out.links.is_empty());
    assert_eq!(
        fault(extract_all(&data, Some(vec!["nothing".to_string()]), &opts)),
        Some(Fault::NoMatch)
    );
    assert_eq!(fault(extract_all(&data, Some(vec![]), &opts)), Some(Fault::NoMatch));
}

fn bare(path: &str, kind: Kind) -> Entry {
    Entry {
        path: path.to_string(),
        kind,
        mode: 0o107755,
        mtime: 3,
        mtime_nanos: 4,
        size: 0,
        hash: None,
        link_target: None,
        segments: vec![],
    }
}

fn with_entries(entries: Vec<Entry>) -> Archive {
    let data = small();
    let mut a = Archive::open(data.len() as u64, &mut Held::new(data.clone())).unwrap();
    a.index = Index { blocks: vec![], entries, created_by: String::new() };
    a
}

#[test]
fn crafted_paths_are_refused_at_their_step() {
    let a = with_entries(vec![bare("ok", Kind::Dir), bare("../evil", Kind::File)]);
    let plan = a.extract(&None, &ExtractOptions::default()).unwrap();
    assert!(matches!(plan.step(&a.index.entries, "d", 0), Ok(Some(Step::MakeDir { path })) if path == "d/ok"));
    assert_eq!(fault(plan.step(&a.index.entries, "d", 1)), Some(Fault::EscapingPath));
    assert!(matches!(
        plan.step(&a.index.entries, "d", 2),
        Ok(Some(Step::SetDirMeta { path, mode: Some(0o7755), mtime: Some((3, 4)) })) if path == "d/ok"
    ));
    assert!(matches!(plan.step(&a.index.entries, "d", 3), Ok(None)));
}

#[test]
fn metadata_follows_the_options() {
    let a = with_entries(vec![bare("d", Kind::Dir), bare("f", Kind::File)]);
    let plan = a.extract(&None, &ExtractOptions::default()).unwrap();
    assert!(matches!(
        plan.step(&a.index.entries, "", 1),
        Ok(Some(Step::WriteFile { entry: 1, mode: Some(0o7755), mtime: Some((3, 4)), .. }))
    ));
    let none = ExtractOptions { restore_mode: false, restore_mtime: false, ..Default::default() };
    let plan = a.extract(&None, &none).unwrap();
    assert!(matches!(
        plan.step(&a.index.entries, "", 1),
        Ok(Some(Step::WriteFile { entry: 1, mode: None, mtime: None, .. }))
    ));
    assert!(matches!(plan.step(&a.index.entries, "", 2), Ok(None)));
    let bits = ExtractOptions { restore_mtime: false, ..Default::default() };
    let plan = a.extract(&None, &bits).unwrap();
    assert!(matches!(
        plan.step(&a.index.entries, "", 2),
        Ok(Some(Step::SetDirMeta { mode: Some(0o7755), mtime: None, .. }))
    ));
    assert!(matches!(plan.step(&a.index.entries, "", 3), Ok(None)));
}

/// The bits and times of directories are set last, the innermost first.
#[test]
fn directories_are_closed_from_the_inside() {
    let mut outer = bare("d", Kind::Dir);
    outer.mode = 0o40700;
    let mut inner = bare("d/e", Kind::Dir);
    inner.mode = 0o40500;
    let a = with_entries(vec![outer, inner, bare("d/e/f", Kind::File)]);
    let plan = a.extract(&None, &ExtractOptions::default()).unwrap();
    assert!(matches!(
        plan.step(&a.index.entries, "", 3),
        Ok(Some(Step::SetDirMeta { path, mode: Some(0o500), .. })) if path == "d/e"
    ));
    assert!(matches!(
        plan.step(&a.index.entries, "", 4),
        Ok(Some(Step::SetDirMeta { path, mode: Some(0o700), .. })) if path == "d"
    ));
    assert!(matches!(plan.step(&a.index.entries, "", 5), Ok(None)));
}

/// What lies below a symlink of the archive would land where the symlink points.
#[test]
fn paths_below_a_symlink_are_refused() {
    let mut outer = bare("a", Kind::Symlink);
    outer.link_target = Some("/out".to_string());
    let mut inner = bare("a/b", Kind::Symlink);
    inner.link_target = Some("x".to_string());
    let entries = vec![bare("ab", Kind::Dir), bare("a/f", Kind::File), outer, inner];
    let a = with_entries(entries);
    let plan = a.extract(&None, &ExtractOptions::default()).unwrap();
    assert!(matches!(plan.step(&a.index.entries, "d", 0), Ok(Some(Step::MakeDir { .. }))));
    assert_eq!(fault(plan.step(&a.index.entries, "d", 1)), Some(Fault::BelowLink));
    assert!(matches!(plan.step(&a.index.entries, "d", 2), Ok(Some(Step::MakeLink { .. }))));
    assert_eq!(fault(plan.step(&a.index.entries, "d", 3)), Some(Fault::BelowLink));
    // A symlink that is not extracted is in nobody's way.
    let only = Some(vec!["a/b".to_string()]);
    let plan = a.extract(&only, &ExtractOptions::default()).unwrap();
    assert!(matches!(plan.step(&a.index.entries, "d", 0), Ok(Some(Step::MakeLink { .. }))));
}

#[test]
fn existing_things_are_kept_when_asked() {
    let mut link = bare("l", Kind::Symlink);
    let a = with_entries(vec![]);
    let keep = ExtractOptions { overwrite: false, ..Default::default() };
    let plan = a.extract(&None, &keep).unwrap();
    assert_eq!(fault(plan.admit_file(true)), Some(Fault::AlreadyExists));
    assert!(plan.admit_file(false).is_ok());
    assert_eq!(fault(plan.admit_link(&link, true)), Some(Fault::NoLinkTarget));
    link.link_target = Some("t".to_string());
    assert_eq!(fault(plan.admit_link(&link, true)), Some(Fault::AlreadyExists));
    assert_eq!(plan.admit_link(&link, false).unwrap(), "t");
    let replace = a.extract(&None, &ExtractOptions::default()).unwrap();
    assert!(replace.admit_file(true).is_ok());
    assert_eq!(replace.admit_link(&link, true).unwrap(), "t");
}

#[test]
fn files_come_in_block_order() {
    let mut early = bare("z", Kind::File);
    early.segments = vec![Segment { block: 0, offset: 7, len: 0 }];
    let mut late = bare("a", Kind::File);
    late.segments = vec![Segment { block: 2, offset: 0, len: 0 }];
    let mut first = bare("m", Kind::File);
    first.segments = vec![Segment { block: 0, offset: 3, len: 0 }];
    let a = with_entries(vec![late, bare("e", Kind::File), early, first]);
    let plan = a.extract(&None, &ExtractOptions::default()).unwrap();
    assert_eq!(plan.files, [3, 2, 0, 1]);
}

#[test]
fn sizes_that_overflow_are_noticed() {
    let mut big = bare("a", Kind::File);
    big.size = u64::MAX;
    let mut one = bare("b", Kind::File);
    one.size = 1;
    let mut dir = bare("c", Kind::Dir);
    dir.size = 5;
    let a = with_entries(vec![dir, big, one]);
    assert_eq!(a.checked_total_size(), None);
    let plan = a.extract(&None, &ExtractOptions::default()).unwrap();
    assert!(plan.stats(&a.index.entries).is_none());
    let only = a.extract(&Some(vec!["b".to_string()]), &ExtractOptions::default()).unwrap();
    assert_eq!(only.stats(&a.index.entries).unwrap().bytes, 1);
}

/// A fault in one block leaves the files of the others alone.
#[test]
fn other_blocks_do_not_matter() {
    let mut src = Tree::default();
    src.file("a.rs", &[1; 60]);
    src.file("b.rs", &[2; 60]);
    let opts = WriteOptions { codec: Codec::Xz, level: 1, block_size: 100, ..Default::default() };
    let (mut data, _) = src.archive(&opts).unwrap();
    data[16] ^= 0xff;
    let mut fetch = Held::new(data.clone());
    let mut a = Archive::open(data.len() as u64, &mut fetch).unwrap();
    let (first, second) = (a.index.entries[0].clone(), a.index.entries[1].clone());
    assert_eq!(fault(a.read_file(&first, &mut fetch)), Some(Fault::BlockFrame));
    assert_eq!(a.read_file(&second, &mut fetch).unwrap(), vec![2; 60]);
    assert_eq!(fault(a.verify(&mut fetch, &mut journal())), Some(Fault::BlockFrame));
}

/// Whatever byte of the stored blocks changes, checking finds it.
#[test]
fn every_stored_byte_is_covered() {
    let data = small();
    for at in 16..24 {
        let mut bad = data.clone();
        bad[at] = bad[at].wrapping_add(1);
        let mut fetch = Held::new(bad.clone());
        let mut a = Archive::open(bad.len() as u64, &mut fetch).unwrap();
        assert_eq!(fault(a.verify(&mut fetch, &mut journal())), Some(Fault::Checksum));
    }
}

/// Files are packed by lane, extension, directory and name, whatever the order
/// of the walk.
#[test]
fn packing_follows_the_sort() {
    let mut src = Tree::default();
    src.file("b/photo.jpg", &[1; 4]);
    src.file("z/a.rs", &[2; 4]);
    src.file("a/b.py", &[3; 4]);
    src.file("c/d.rs", &[4; 4]);
    let opts = WriteOptions { codec: Codec::Store, fast_lane: false, ..Default::default() };
    let (data, _) = src.archive(&opts).unwrap();
    assert_eq!(&data[16..32], &[3, 3, 3, 3, 4, 4, 4, 4, 2, 2, 2, 2, 1, 1, 1, 1]);
}

/// Two inputs become one archive, and files with the same contents are stored
/// once across them.
#[test]
fn inputs_are_archived_together() {
    let (mut one, mut two) = (Tree::default(), Tree::default());
    one.file("one/a.rs", &[1; 50]);
    two.dir("two");
    two.file("two/a.rs", &[1; 50]);
    two.file("two/e.rs", &[]);
    two.file("two/f.rs", &[]);
    let files = [one.files, two.files].concat();
    let (data, stats) =
        archive_of(&vec![one.items, two.items], &files, &WriteOptions::default()).unwrap();
    assert_eq!((stats.files, stats.dirs, stats.blocks), (4, 1, 1));
    // The second empty file is a duplicate of the first.
    assert_eq!((stats.deduped_files, stats.deduped_bytes), (2, 50));
    let out = extract_all(&data, None, &ExtractOptions::default()).unwrap();
    assert_eq!(out.files["out/one/a.rs"], out.files["out/two/a.rs"]);
    assert_eq!(out.files["out/two/f.rs"], Vec::<u8>::new());
}

/// A file that was found empty and then has bytes is caught on extraction.
#[test]
fn a_file_that_grows_from_nothing_fails_its_checksum() {
    let mut src = Tree::default();
    src.file("a.rs", &[]);
    src.files[0] = vec![1; 5];
    let (data, _) = src.archive(&WriteOptions::default()).unwrap();
    assert_eq!(
        fault(extract_all(&data, None, &ExtractOptions::default())),
        Some(Fault::Checksum)
    );
}

/// A selection covers a directory and what is below it, and nothing beside it.
#[test]
fn a_selected_directory_comes_whole() {
    let mut src = Tree::default();
    src.dir("t");
    src.dir("t/src");
    src.file("t/src/m", b"ab");
    src.file("t/src/e", b"");
    src.link("t/src/l", "m");
    src.dir("t/srcx");
    src.file("t/srcx/n", b"c");
    let (data, _) = src.archive(&WriteOptions::default()).unwrap();
    let mut fetch = Held::new(data.clone());
    let a = Archive::open(data.len() as u64, &mut fetch).unwrap();
    let filter = Some(vec!["t/src".to_string()]);
    let opts = ExtractOptions::default();
    let stats = a.extract(&filter, &opts).unwrap().stats(&a.index.entries).unwrap();
    assert_eq!((stats.files, stats.dirs, stats.symlinks, stats.bytes), (2, 1, 1, 2));
    let out = extract_all(&data, filter, &opts).unwrap();
    assert_eq!(out.files["out/t/src/m"], b"ab");
    assert_eq!(out.files["out/t/src/e"], b"");
    assert_eq!(out.links["out/t/src/l"], "m");
    assert_eq!(out.dirs, ["out/t/src"]);
    assert_eq!(out.files.len(), 2);
}

/// A file that cannot be read any more when its turn comes is reported.
#[test]
fn a_file_that_vanishes_is_reported() {
    let mut src = Tree::default();
    src.file("a.rs", &[1; 10]);
    let reads = Cell::new(0);
    let files = src.files.clone();
    let mut read = ReadBy::new(|k: usize, o: u64, l: u64| {
        if o == 0 {
            reads.set(reads.get() + 1);
        }
        if reads.get() > 1 {
            return Err(std::io::Error::new(std::io::ErrorKind::NotFound, "gone"));
        }
        slice_of(&files[k], o, l)
    });
    let mut told = journal();
    let r = create(
        &mut Output::new(),
        &vec![src.items],
        &WriteOptions::default(),
        &mut read,
        &mut collected(),
        &mut told,
    );
    assert_eq!(told.lines, ["scanning", "hashing", "packing"]);
    assert_eq!(fault(r), Some(Fault::Source));
}
