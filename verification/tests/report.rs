use embr_format::error::{Error, Fault};
use embr_format::index::BlockInfo;
use embr_format::report::{
    block_size_bytes, block_totals, choose_settings, codec_totals, extract_options, find_file,
    first_block, kind_mark, listed_mode, saved_bytes, selection, write_options, CodecTotal,
};
use embr_format::{Codec, Entry, ExtractOptions, Kind, Segment, WriteOptions, DEFAULT_BLOCK_SIZE};

fn fault<T>(r: Result<T, Error>) -> Option<Fault> {
    r.err().map(|e| e.fault)
}

fn block(codec: u8, rlen: u64, clen: u64) -> BlockInfo {
    BlockInfo { offset: 0, clen, rlen, codec }
}

#[test]
fn presets_and_levels() {
    let preset = |p: &str| choose_settings(&Some(p.to_string()), Codec::Store, Some(1));
    assert_eq!(preset("fast").unwrap(), (Codec::Zstd, 3));
    assert_eq!(preset("balanced").unwrap(), (Codec::Zstd, 12));
    assert_eq!(preset("max").unwrap(), (Codec::Xz, 9));
    assert_eq!(fault(preset("slow")), Some(Fault::UnknownPreset));
    assert_eq!(choose_settings(&None, Codec::Zstd, None).unwrap(), (Codec::Zstd, 12));
    assert_eq!(choose_settings(&None, Codec::Xz, None).unwrap(), (Codec::Xz, 6));
    assert_eq!(choose_settings(&None, Codec::Store, None).unwrap(), (Codec::Store, 0));
    assert_eq!(choose_settings(&None, Codec::Zstd, Some(19)).unwrap(), (Codec::Zstd, 19));
}

#[test]
fn block_sizes_are_in_mib() {
    assert_eq!(block_size_bytes(64).unwrap(), DEFAULT_BLOCK_SIZE);
    assert_eq!(fault(block_size_bytes(0)), Some(Fault::ZeroBlockSize));
}

#[test]
fn flags_become_options() {
    let o = write_options(&None, Codec::Xz, None, 1, true, false, true).unwrap();
    assert_eq!((o.codec, o.level, o.block_size), (Codec::Xz, 6, 1 << 20));
    assert_eq!((o.dedup, o.fast_lane, o.follow_symlinks), (true, false, true));
    assert_eq!(
        fault(write_options(&Some("x".to_string()), Codec::Xz, None, 0, true, true, true)),
        Some(Fault::UnknownPreset)
    );
    assert_eq!(
        fault(write_options(&None, Codec::Xz, None, 0, true, true, true)),
        Some(Fault::ZeroBlockSize)
    );
    assert_eq!(extract_options(false, false, false), ExtractOptions::default());
    assert_eq!(
        extract_options(true, true, true),
        ExtractOptions { restore_mode: false, restore_mtime: false, verify: false, overwrite: false }
    );
}

#[test]
fn default_write_options() {
    let o = WriteOptions::default();
    assert_eq!((o.codec, o.level, o.block_size), (Codec::Zstd, 12, 64 * 1024 * 1024));
    assert_eq!((o.dedup, o.fast_lane, o.follow_symlinks), (true, true, false));
}

#[test]
fn codec_totals_come_in_name_order() {
    let blocks = vec![block(1, 10, 4), block(2, 7, 3), block(1, 5, 1)];
    assert_eq!(
        codec_totals(&blocks).unwrap(),
        [
            CodecTotal { codec: Codec::Xz, blocks: 1, raw: 7, stored: 3 },
            CodecTotal { codec: Codec::Zstd, blocks: 2, raw: 15, stored: 5 },
        ]
    );
    assert_eq!(block_totals(&blocks), Some((22, 8)));
    assert_eq!(block_totals(&vec![block(0, u64::MAX, 0), block(0, 1, 0)]), None);
    assert_eq!(
        fault(codec_totals(&vec![block(0, 1, 1), block(8, 1, 1), block(9, 1, 1)])),
        Some(Fault::UnknownCodec(8))
    );
    assert!(codec_totals(&vec![]).unwrap().is_empty());
}

#[test]
fn savings_are_what_blocks_lack() {
    assert_eq!(saved_bytes(10, 4), Some(6));
    assert_eq!(saved_bytes(4, 4), None);
    assert_eq!(saved_bytes(3, 4), None);
}

fn entry(path: &str, kind: Kind) -> Entry {
    Entry {
        path: path.to_string(),
        kind,
        mode: 0o100640,
        mtime: 0,
        mtime_nanos: 0,
        size: 0,
        hash: None,
        link_target: None,
        segments: vec![],
    }
}

#[test]
fn only_files_are_found() {
    let entries = vec![entry("a", Kind::Dir), entry("a", Kind::File), entry("a", Kind::File)];
    assert_eq!(find_file(&entries, "a"), Some(1));
    assert_eq!(find_file(&entries, "b"), None);
}

#[test]
fn listing_columns() {
    assert_eq!(kind_mark(Kind::Dir), 'd');
    assert_eq!(kind_mark(Kind::File), '-');
    assert_eq!(kind_mark(Kind::Symlink), 'l');
    assert_eq!(listed_mode(0o107654), 0o654);
    let mut e = entry("a", Kind::File);
    assert_eq!(first_block(&e), None);
    e.segments = vec![Segment { block: 5, offset: 0, len: 1 }, Segment { block: 6, offset: 0, len: 1 }];
    assert_eq!(first_block(&e), Some(5));
}

#[test]
fn no_paths_mean_everything() {
    assert_eq!(selection(vec![]), None);
    assert_eq!(selection(vec!["a".to_string()]), Some(vec!["a".to_string()]));
}
