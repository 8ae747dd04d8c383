use embr_format::bytes::{get_le, put_le};
use embr_format::codec::{encode_block_with, decode_block, encode_block, window_log_for, worker_count, Codec};
use embr_format::coder::BlockCoder;
use embr_format::digest::{digest, FileHasher};
use embr_format::error::{Error, Fault};
use embr_format::index::{
    read_header, write_header, BlockInfo, Entry, Footer, Index, Kind, Segment, HEADER_LEN,
};
use embr_format::classify::Lane;
use embr_format::order::{stable_order, Key};
use embr_format::pack::Packer;
use embr_format::raw::{deserialize_index, index_from_raw, index_to_raw, serialize_index};
use embr_format::select::PlaceKey;
use embr_format::reading::ReadBy;
use embr_format::stream::{Collected, FetchBy, GiveTo, Held, Output};
use embr_format::WriteOptions;
use std::cell::{Cell, RefCell};

fn fault<T>(r: Result<T, Error>) -> Option<Fault> {
    r.err().map(|e| e.fault)
}

fn sample() -> Index {
    Index {
        blocks: vec![BlockInfo { offset: 16, clen: 3, rlen: 5, codec: 1 }],
        entries: vec![
            Entry {
                path: "d".to_string(),
                kind: Kind::Dir,
                mode: 0o40755,
                mtime: -1,
                mtime_nanos: 7,
                size: 0,
                hash: None,
                link_target: None,
                segments: vec![],
            },
            Entry {
                path: "d/f".to_string(),
                kind: Kind::File,
                mode: 0o100644,
                mtime: 9,
                mtime_nanos: 0,
                size: 5,
                hash: Some([3u8; 32]),
                link_target: None,
                segments: vec![Segment { block: 0, offset: 0, len: 5 }],
            },
            Entry {
                path: "lé→".to_string(),
                kind: Kind::Symlink,
                mode: 0o120777,
                mtime: 0,
                mtime_nanos: 0,
                size: 0,
                hash: None,
                link_target: Some("d/f".to_string()),
                segments: vec![],
            },
        ],
        created_by: "x".to_string(),
    }
}

fn same(a: &Index, b: &Index) -> bool {
    format!("{a:?}") == format!("{b:?}")
}

#[test]
fn footer_round_trips() {
    let f = Footer {
        index_offset: 1234,
        index_clen: 56,
        index_rlen: 789,
        index_hash: [7u8; 32],
    };
    let mut buf = Output::new();
    // A footer is only ever read from the end of a file.
    buf.write(&vec![0u8; HEADER_LEN as usize]).unwrap();
    f.write(&mut buf).unwrap();
    let len = buf.position();
    let data = buf.take();
    let got = Footer::read(len, &mut Held::new(data.clone())).unwrap();
    assert_eq!(got.index_offset, 1234);
    assert_eq!(got.index_clen, 56);
    assert_eq!(got.index_rlen, 789);
    assert_eq!(got.index_hash, [7u8; 32]);
}

#[test]
fn header_bytes_are_fixed() {
    let mut out = Output::new();
    write_header(&mut out).unwrap();
    let data = out.take();
    assert_eq!(data, b"EMBR\x01\0\0\0\0\0\0\0\0\0\0\0".to_vec());
    assert_eq!(read_header(&data).unwrap(), 1);
    assert_eq!(fault(read_header(&data[..15])), Some(Fault::TooShort));
    assert_eq!(fault(read_header(b"EMBX\x01\0\0\0\0\0\0\0\0\0\0\0")), Some(Fault::BadMagic));
    assert_eq!(
        fault(read_header(b"EMBR\x02\x01\0\0\0\0\0\0\0\0\0\0")),
        Some(Fault::NewerVersion(258))
    );
    assert_eq!(read_header(b"EMBR\0\0\0\0\0\0\0\0\0\0\0\0").unwrap(), 0);
}

#[test]
fn footer_bytes_are_fixed() {
    let f = Footer { index_offset: 1, index_clen: 2, index_rlen: 0x0102, index_hash: [9u8; 32] };
    let mut out = Output::new();
    f.write(&mut out).unwrap();
    let data = out.take();
    assert_eq!(data.len(), 64);
    assert_eq!(&data[..24], b"\x01\0\0\0\0\0\0\0\x02\0\0\0\0\0\0\0\x02\x01\0\0\0\0\0\0");
    assert_eq!(&data[24..56], &[9u8; 32]);
    assert_eq!(&data[56..], b"\x01\0\0\0EMBR");
}

#[test]
fn footers_are_refused_when_cut() {
    let data = vec![0u8; 79];
    assert_eq!(
        fault(Footer::read(79, &mut Held::new(data.clone()))),
        Some(Fault::TooShort)
    );
    let data = vec![0u8; 80];
    assert_eq!(
        fault(Footer::read(80, &mut Held::new(data.clone()))),
        Some(Fault::NoFooter)
    );
    let mut broken = FetchBy::new(|_: u64, _: u64| -> Result<Vec<u8>, std::io::Error> {
        Err(std::io::Error::new(std::io::ErrorKind::Other, "broken"))
    });
    assert_eq!(fault(Footer::read(80, &mut broken)), Some(Fault::Source));
}

#[test]
fn little_endian_round_trips() {
    assert_eq!(put_le(0x0102_0304, 4), vec![4, 3, 2, 1]);
    assert_eq!(get_le(&[9, 4, 3, 2, 1], 1, 4), 0x0102_0304);
    assert_eq!(get_le(&put_le(u64::MAX - 1, 8), 0, 8), u64::MAX - 1);
}

/// The serialized index has the layout of the documented structs: lengths as
/// eight bytes, integers little-endian, options and kinds as tags.
#[test]
fn serialized_index_layout() {
    let ix = sample();
    let raw = serialize_index(&ix).unwrap();
    let mut want: Vec<u8> = Vec::new();
    let u64s = |v: &mut Vec<u8>, n: u64| v.extend_from_slice(&n.to_le_bytes());
    u64s(&mut want, 1);
    u64s(&mut want, 16);
    u64s(&mut want, 3);
    u64s(&mut want, 5);
    want.push(1);
    u64s(&mut want, 3);
    for e in &ix.entries {
        u64s(&mut want, e.path.len() as u64);
        want.extend_from_slice(e.path.as_bytes());
        let kind: u32 = match e.kind {
            Kind::File => 0,
            Kind::Dir => 1,
            Kind::Symlink => 2,
        };
        want.extend_from_slice(&kind.to_le_bytes());
        want.extend_from_slice(&e.mode.to_le_bytes());
        want.extend_from_slice(&e.mtime.to_le_bytes());
        want.extend_from_slice(&e.mtime_nanos.to_le_bytes());
        want.extend_from_slice(&e.size.to_le_bytes());
        match e.hash {
            Some(h) => {
                want.push(1);
                want.extend_from_slice(&h);
            }
            None => want.push(0),
        }
        match &e.link_target {
            Some(t) => {
                want.push(1);
                u64s(&mut want, t.len() as u64);
                want.extend_from_slice(t.as_bytes());
            }
            None => want.push(0),
        }
        u64s(&mut want, e.segments.len() as u64);
        for s in &e.segments {
            want.extend_from_slice(&s.block.to_le_bytes());
            want.extend_from_slice(&s.offset.to_le_bytes());
            want.extend_from_slice(&s.len.to_le_bytes());
        }
    }
    u64s(&mut want, 1);
    want.push(b'x');
    assert_eq!(raw, want);
    assert!(same(&deserialize_index(&raw).unwrap(), &ix));
}

#[test]
fn bad_serialized_indexes_are_refused() {
    let raw = serialize_index(&sample()).unwrap();
    assert_eq!(fault(deserialize_index(&raw[..raw.len() - 1])), Some(Fault::IndexLayout));
    // A kind that does not exist: the first entry's tag follows its path.
    let mut odd = raw.clone();
    let at = 8 + 25 + 8 + 8 + 1;
    assert_eq!(odd[at], 1);
    odd[at] = 3;
    assert_eq!(fault(deserialize_index(&odd)), Some(Fault::IndexLayout));
}

#[test]
fn stored_index_is_read_back_or_refused() {
    let ix = sample();
    let mut out = Output::new();
    write_header(&mut out).unwrap();
    let footer = ix.write(&mut out).unwrap();
    let data = out.take();
    assert_eq!(footer.index_offset, 16);
    assert_eq!(footer.index_clen, data.len() as u64 - 16);
    assert_ne!(data[16..].to_vec(), serialize_index(&ix).unwrap());
    assert!(same(&Index::read(&mut Held::new(data.clone()), &footer).unwrap(), &ix));
    let packed = &data[16..];
    assert!(same(&Index::parse(&footer, packed).unwrap(), &ix));
    assert_eq!(fault(Index::parse(&footer, &packed[1..])), Some(Fault::IndexCut));
    let mut junk = packed.to_vec();
    junk[0] ^= 0xff;
    assert_eq!(fault(Index::parse(&footer, &junk)), Some(Fault::IndexFrame));
    let longer = Footer { index_rlen: footer.index_rlen + 1, ..footer };
    assert_eq!(fault(Index::parse(&longer, packed)), Some(Fault::IndexLength));
    let other = Footer { index_hash: [0u8; 32], ..footer };
    assert_eq!(fault(Index::parse(&other, packed)), Some(Fault::IndexChecksum));
}

#[test]
fn an_empty_index_is_the_default() {
    let ix = Index::default();
    assert!(ix.blocks.is_empty() && ix.entries.is_empty() && ix.created_by.is_empty());
}

#[test]
fn codecs_have_ids_and_names() {
    for (codec, id, name) in [(Codec::Store, 0, "store"), (Codec::Zstd, 1, "zstd"), (Codec::Xz, 2, "xz")] {
        assert_eq!(codec.as_u8(), id);
        assert_eq!(Codec::from_u8(id).unwrap(), codec);
        assert_eq!(codec.name(), name);
        assert_eq!(Codec::parse(name).unwrap(), codec);
    }
    assert_eq!(fault(Codec::from_u8(3)), Some(Fault::UnknownCodec(3)));
    assert_eq!(Codec::parse("NONE").unwrap(), Codec::Store);
    assert_eq!(Codec::parse("Lzma2").unwrap(), Codec::Xz);
    assert_eq!(Codec::parse("lzma").unwrap(), Codec::Xz);
    assert_eq!(fault(Codec::parse("gzip")), Some(Fault::UnknownCodecName));
}

#[test]
fn windows_cover_blocks_up_to_a_bound() {
    assert_eq!(window_log_for(0), 10);
    assert_eq!(window_log_for(1024), 10);
    assert_eq!(window_log_for(1025), 11);
    assert_eq!(window_log_for(64 << 20), 26);
    assert_eq!(window_log_for(1 << 40), 27);
}

#[test]
fn workers_are_bounded() {
    assert_eq!(worker_count(1), 1);
    assert_eq!(worker_count(15), 15);
    assert_eq!(worker_count(64), 16);
}

#[test]
fn blocks_decode_to_what_was_encoded() {
    let src = b"the same words, the same words, the same words, the same words".to_vec();
    for codec in [Codec::Store, Codec::Zstd, Codec::Xz] {
        let mut out = Output::new();
        out.write(b"head").unwrap();
        assert_eq!(encode_block(codec, 6, 4096, &src, &mut out).unwrap(), src.len() as u64);
        let data = out.take();
        assert_eq!(&data[..4], b"head");
        let frame = &data[4..];
        if codec == Codec::Store {
            assert_eq!(frame, &src[..]);
        } else {
            assert_ne!(frame, &src[..]);
        }
        assert_eq!(decode_block(codec, frame, src.len() as u64).unwrap(), src);
        for want in [src.len() as u64 - 1, src.len() as u64 + 1] {
            let wrong = Fault::BlockLength { got: src.len() as u64, want };
            assert_eq!(fault(decode_block(codec, frame, want)), Some(wrong));
        }
    }
    assert_eq!(decode_block(Codec::Store, b"abc", 3).unwrap(), b"abc".to_vec());
    for bad in [&b"ab"[..], b"abcd"] {
        let wrong = Fault::BlockLength { got: bad.len() as u64, want: 3 };
        assert_eq!(fault(decode_block(Codec::Store, bad, 3)), Some(wrong));
    }
    assert_eq!(fault(decode_block(Codec::Zstd, b"no frame", 3)), Some(Fault::BlockFrame));
    assert_eq!(fault(decode_block(Codec::Xz, b"no stream", 3)), Some(Fault::BlockFrame));
}

#[test]
fn levels_out_of_range_still_encode() {
    let src = vec![1u8; 10_000];
    for level in [-5, 0, 99] {
        for codec in [Codec::Zstd, Codec::Xz] {
            let mut out = Output::new();
            encode_block_with(codec, level, 1024, 2, &src, &mut out).unwrap();
            assert_eq!(decode_block(codec, &out.take(), 10_000).unwrap(), src);
        }
    }
}

#[test]
fn digests_are_blake3() {
    let hex: String = digest(b"").iter().map(|b| format!("{b:02x}")).collect();
    assert_eq!(hex, "af1349b9f5f9a1a6a0404dea36dcc9499bcb25c9adc112b7cc9a93cae41f3262");
    let mut h = FileHasher::new();
    h.update(b"ab");
    h.update(b"");
    h.update(b"c");
    assert_eq!(h.finish(), digest(b"abc"));
    assert_ne!(h.finish(), digest(b"ab"));
}

#[test]
fn output_keeps_its_position_when_drained() {
    let mut out = Output::new();
    out.write(b"abc").unwrap();
    assert_eq!(out.take(), b"abc".to_vec());
    out.write(b"de").unwrap();
    assert_eq!(out.position(), 5);
    let mut seen = Collected { bytes: b"x".to_vec() };
    out.drain(&mut seen).unwrap();
    assert_eq!(seen.bytes, b"xde".to_vec());
    // What was handed on is not handed on again.
    out.drain(&mut seen).unwrap();
    assert_eq!(seen.bytes, b"xde".to_vec());
    assert_eq!(out.position(), 5);
    out.write(b"f").unwrap();
    let mut refusing = GiveTo::new(|_: Vec<u8>| -> Result<(), std::io::Error> {
        Err(std::io::Error::new(std::io::ErrorKind::Other, "full"))
    });
    assert_eq!(fault(out.drain(&mut refusing)), Some(Fault::Sink));
}

#[test]
fn equal_keys_keep_their_order() {
    let keys: Vec<PlaceKey> = [(1, 5), (0, 9), (1, 5), (0, 0), (1, 4)]
        .iter()
        .map(|(block, offset)| PlaceKey { block: *block, offset: *offset })
        .collect();
    assert!(keys[0].no_greater(&keys[2]) && keys[2].no_greater(&keys[0]));
    assert_eq!(stable_order(&keys), vec![3, 1, 4, 0, 2]);
}

#[test]
fn tuples_stand_for_indexes() {
    let ix = sample();
    let mut raw = index_to_raw(&ix);
    assert_eq!(raw.0, vec![(16, 3, 5, 1)]);
    assert_eq!(raw.1[1].0, ("d/f".to_string(), 0, 0o100644));
    assert_eq!(raw.1[1].1, (9, 0, 5));
    assert_eq!(raw.1[1].2, (Some([3u8; 32]), None, vec![(0, 0, 5)]));
    assert_eq!(raw.1[2].2 .1.as_deref(), Some("d/f"));
    assert!(same(&index_from_raw(&raw).unwrap(), &ix));
    raw.1[2].0 .1 = 7;
    assert!(index_from_raw(&raw).is_none());
}

/// Packs one file whose bytes are `data`, announced with `size` bytes.
fn add(
    p: &mut Packer,
    out: &mut Output,
    written: &mut Collected,
    size: u64,
    data: &[u8],
    lane: Lane,
) -> Result<Vec<Segment>, Error> {
    let mut read = ReadBy::new(|_: usize, o: u64, l: u64| -> Result<Vec<u8>, std::io::Error> {
        let from = (o as usize).min(data.len());
        // Short answers are fine: only an empty one is the end.
        let to = (from + (l as usize).min(7)).min(data.len());
        Ok(data[from..to].to_vec())
    });
    p.add(out, size, lane, &mut read, 0, written)
}

/// A file that fits goes into the pending block, and nothing is written. One that
/// does not fit, or has another lane, seals the block first.
#[test]
fn files_that_fit_write_nothing() {
    let opts = WriteOptions { codec: Codec::Store, block_size: 10, ..Default::default() };
    let mut written = Collected { bytes: Vec::new() };
    let mut out = Output::new();
    write_header(&mut out).unwrap();
    let mut p = Packer::new(&opts);
    assert!(add(&mut p, &mut out, &mut written, 0, b"", Lane::Fast).unwrap().is_empty());
    for (data, offset) in [(&b"abcd"[..], 0), (b"efgh", 4), (b"ij", 8)] {
        let at = add(&mut p, &mut out, &mut written, data.len() as u64, data, Lane::Compress).unwrap();
        assert_eq!(at, [Segment { block: 0, offset, len: data.len() as u64 }]);
        assert_eq!(out.position(), HEADER_LEN);
    }
    let wrong = add(&mut p, &mut out, &mut written, 3, b"four", Lane::Compress);
    assert_eq!(fault(wrong), Some(Fault::SizeChanged { got: 4, want: 3 }));
    // The block was full, so it has been sealed for the file that then was not
    // as announced.
    assert_eq!(out.position(), HEADER_LEN + 10);
    let at = add(&mut p, &mut out, &mut written, 3, b"klm", Lane::Compress).unwrap();
    assert_eq!(at, [Segment { block: 1, offset: 0, len: 3 }]);
    assert!(written.bytes.is_empty());
    let large = add(&mut p, &mut out, &mut written, 10, b"0123456789", Lane::Compress).unwrap();
    assert_eq!(large, [Segment { block: 2, offset: 0, len: 10 }]);
    assert_eq!(out.position(), HEADER_LEN + 23);
    p.flush(&mut out).unwrap();
    assert_eq!(out.position(), HEADER_LEN + 23);
    let lens: Vec<u64> = p.into_blocks().iter().map(|b| b.rlen).collect();
    assert_eq!(lens, [10, 3, 10]);
    // A large file has been handed on as it was read.
    written.bytes.extend_from_slice(&out.take());
    assert_eq!(&written.bytes[HEADER_LEN as usize..], b"abcdefghijklm0123456789");
}

/// Encoders make the same of their input however it is cut, up to which frame it is.
#[test]
fn encoders_take_their_input_in_pieces() {
    let src: Vec<u8> = (0..300_000u32).flat_map(|i| (i * i).to_le_bytes()).collect();
    for (codec, level) in [(Codec::Store, 0), (Codec::Zstd, 3), (Codec::Xz, 1)] {
        let mut coder = BlockCoder::begin(codec, level, 1 << 20, 2).unwrap();
        let mut frame = coder.feed(&[]).unwrap();
        for piece in src.chunks(99_991) {
            frame.extend(coder.feed(piece).unwrap());
        }
        // What has come out by now is not all of it, but for bytes kept as they are.
        assert_eq!(frame == src, codec == Codec::Store);
        frame.extend(coder.close().unwrap());
        assert_eq!(decode_block(codec, &frame, src.len() as u64).unwrap(), src);
        let mut out = Output::new();
        encode_block_with(codec, level, 1 << 20, 2, &src, &mut out).unwrap();
        assert_eq!(decode_block(codec, &out.take(), src.len() as u64).unwrap(), src);
    }
    for codec in [Codec::Store, Codec::Zstd, Codec::Xz] {
        let mut coder = BlockCoder::begin(codec, 1, 1024, 1).unwrap();
        let frame = coder.close().unwrap();
        assert_eq!(decode_block(codec, &frame, 0).unwrap(), Vec::<u8>::new());
    }
}

/// A file at or above the block size is read and written piece by piece.
#[test]
fn large_files_stream() {
    let data: Vec<u8> = (0..3_000_000u32).map(|i| (i.wrapping_mul(2_654_435_761) >> 24) as u8).collect();
    for codec in [Codec::Store, Codec::Zstd, Codec::Xz] {
        let opts = WriteOptions { codec, level: 1, block_size: 1 << 20, ..Default::default() };
        let (longest, handed) = (Cell::new(0), RefCell::new(Vec::new()));
        let mut read = ReadBy::new(|_: usize, o: u64, l: u64| -> Result<Vec<u8>, std::io::Error> {
            let from = (o as usize).min(data.len());
            Ok(data[from..(from + l as usize).min(data.len())].to_vec())
        });
        let mut sink = GiveTo::new(|bytes: Vec<u8>| -> Result<(), std::io::Error> {
            longest.set(bytes.len().max(longest.get()));
            handed.borrow_mut().extend_from_slice(&bytes);
            Ok(())
        });
        let mut out = Output::new();
        write_header(&mut out).unwrap();
        let mut p = Packer::new(&opts);
        let size = data.len() as u64;
        let at = p.add(&mut out, size, Lane::Compress, &mut read, 0, &mut sink).unwrap();
        assert_eq!(at, [Segment { block: 0, offset: 0, len: data.len() as u64 }]);
        assert!(longest.get() > 0 && longest.get() < 2 << 20);
        let mut handed = handed.into_inner();
        handed.extend(out.take());
        let blocks = p.into_blocks();
        let (from, to) = (blocks[0].offset as usize, (blocks[0].offset + blocks[0].clen) as usize);
        assert_eq!(handed.len(), to);
        assert_eq!(decode_block(codec, &handed[from..to], blocks[0].rlen).unwrap(), data);
    }
}

/// What goes wrong with a large file on the way is reported.
#[test]
fn a_large_file_that_fails_is_reported() {
    let opts = WriteOptions { codec: Codec::Store, block_size: 4, ..Default::default() };
    let mut broken = ReadBy::new(|_: usize, o: u64, _: u64| -> Result<Vec<u8>, std::io::Error> {
        if o < 8 {
            Ok(vec![1; 4])
        } else {
            Err(std::io::Error::new(std::io::ErrorKind::Other, "broken"))
        }
    });
    let mut whole = ReadBy::new(|_: usize, o: u64, _: u64| -> Result<Vec<u8>, std::io::Error> {
        Ok(if o < 8 { vec![1; 4] } else { vec![] })
    });
    let mut fine = GiveTo::new(|_: Vec<u8>| -> Result<(), std::io::Error> { Ok(()) });
    let mut full = GiveTo::new(|_: Vec<u8>| -> Result<(), std::io::Error> {
        Err(std::io::Error::new(std::io::ErrorKind::Other, "full"))
    });
    let start = || {
        let mut out = Output::new();
        write_header(&mut out).unwrap();
        (Packer::new(&opts), out)
    };
    let (mut p, mut out) = start();
    assert_eq!(fault(p.add(&mut out, 12, Lane::Compress, &mut broken, 0, &mut fine)), Some(Fault::Source));
    let (mut p, mut out) = start();
    assert_eq!(fault(p.add(&mut out, 8, Lane::Compress, &mut whole, 0, &mut full)), Some(Fault::Sink));
    let (mut p, mut out) = start();
    assert_eq!(
        fault(p.add(&mut out, 9, Lane::Compress, &mut whole, 0, &mut fine)),
        Some(Fault::ShortBlock { got: 8, want: 9 })
    );
    assert!(p.into_blocks().is_empty());
    let (mut p, mut out) = start();
    assert_eq!(p.add(&mut out, 8, Lane::Compress, &mut whole, 0, &mut fine).unwrap().len(), 1);
    assert_eq!(p.into_blocks().len(), 1);
}
