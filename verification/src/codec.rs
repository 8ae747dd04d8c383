//! Compression codecs. Each block in an archive names exactly one of these.
//!
//! The set is deliberately small: a fast general-purpose codec (zstd), a
//! high-ratio one (xz/LZMA2), and `Store` for bytes kept as they are. Codec ids
//! are part of the on-disk format, so existing values must never be reused for
//! something else.

use vstd::arithmetic::power2::pow2;
use vstd::prelude::*;

use crate::coder::{BlockCoder, XZ_MAX};
use crate::error::{Error, Fault};
use crate::stream::Output;
use crate::text::{chars_of, lower_text, lowered, same_text, text_from};

verus! {

/// Upper bound on the window log ever requested when writing. The reader
/// allows exactly this much, so raising it is a format-breaking change.
pub const MAX_WINDOW_LOG: u32 = 27;

/// The most worker threads ever requested of zstd.
pub const MAX_WORKERS: u32 = 16;

#[derive(Debug, Clone, Copy, PartialEq, Eq, Structural)]
pub enum Codec {
    Store,
    Zstd,
    Xz,
}

/// `zstd::stream::raw::Encoder`, fed `src` piece by piece, may turn it into `frame` at
/// this level, window log and number of workers. (The frame depends on the pieces, and
/// with workers it is not promised to be the same each time.)
pub uninterp spec fn zstd_frame(
    frame: Seq<u8>,
    src: Seq<u8>,
    level: i32,
    window_log: u32,
    workers: u32,
) -> bool;

/// `zstd::stream::raw::Encoder` may fail when it has been fed `src` at this level,
/// window log and number of workers, on some machine. (It starts threads for its
/// workers, which not every machine grants.)
pub uninterp spec fn zstd_refuses(src: Seq<u8>, level: i32, window_log: u32, workers: u32) -> bool;

/// What `zstd::stream::read::Decoder`, given the memory that it asks for, makes of
/// `frame` under a limit on the window log; `None` if it fails.
pub uninterp spec fn zstd_decoded(frame: Seq<u8>, window_log_max: u32) -> Option<Seq<u8>>;

/// `zstd::stream::encode_all` may turn `src` into `frame` at this level.
pub uninterp spec fn zstd_packed(frame: Seq<u8>, src: Seq<u8>, level: i32) -> bool;

/// What `zstd::stream::decode_all`, given the memory that it asks for, makes of
/// `frame`; `None` if it fails.
pub uninterp spec fn zstd_unpacked(frame: Seq<u8>) -> Option<Seq<u8>>;

/// `xz2::stream::Stream`, fed `src` piece by piece, may turn it into `stream` at this
/// preset.
pub uninterp spec fn xz_stream(stream: Seq<u8>, src: Seq<u8>, preset: u32) -> bool;

/// What `xz2::read::XzDecoder`, given the memory that it asks for, makes of
/// `stream`; `None` if it fails.
pub uninterp spec fn xz_decoded(stream: Seq<u8>) -> Option<Seq<u8>>;

/// `num_cpus::get`: the number of CPUs of this machine, at least one.
#[verifier::external_body]
fn cpu_count() -> (n: usize)
    ensures
        n >= 1,
{
    num_cpus::get()
}

/// `zstd::stream::read::Decoder`, read to its end: the bytes that the frames in
/// `src` hold, or an error, as a function of `src` and the window limit.
#[verifier::external_body]
fn zstd_decode(src: &[u8], window_log_max: u32) -> (r: Result<Vec<u8>, std::io::Error>)
    requires
        10 <= window_log_max <= 30,
    ensures
        match r {
            Ok(out) => zstd_decoded(src@, window_log_max) == Some(out@),
            Err(_) => zstd_decoded(src@, window_log_max) is None,
        },
{
    let mut out = Vec::new();
    let mut dec = zstd::stream::read::Decoder::new(src)?;
    dec.window_log_max(window_log_max)?;
    std::io::Read::read_to_end(&mut dec, &mut out)?;
    Ok(out)
}

/// `zstd::stream::encode_all`: `src` as one complete zstd frame, which
/// `zstd::stream::decode_all` turns back into `src`. A frame begins with a magic
/// number, so it is never empty. Given the memory that it
/// asks for it does not fail: a level out of range is clamped, and reading from
/// and writing to memory succeeds.
#[verifier::external_body]
pub(crate) fn zstd_encode_all(src: &[u8], level: i32) -> (r: Result<Vec<u8>, std::io::Error>)
    ensures
        r is Ok,
        r matches Ok(frame) ==> {
            &&& zstd_packed(frame@, src@, level)
            &&& zstd_unpacked(frame@) == Some(src@)
            &&& frame@.len() > 0
        },
{
    zstd::stream::encode_all(src, level)
}

/// `zstd::stream::decode_all`: the bytes that the frames in `src` hold, or an
/// error, as a function of `src`.
#[verifier::external_body]
pub(crate) fn zstd_decode_all(src: &[u8]) -> (r: Result<Vec<u8>, std::io::Error>)
    ensures
        match r {
            Ok(out) => zstd_unpacked(src@) == Some(out@),
            Err(_) => zstd_unpacked(src@) is None,
        },
{
    zstd::stream::decode_all(src)
}

/// `xz2::read::XzDecoder`, read to its end: the bytes that the one xz stream in
/// `src` holds, or an error, as a function of `src`. Bytes behind the stream are
/// an error.
#[verifier::external_body]
fn xz_decode(src: &[u8]) -> (r: Result<Vec<u8>, std::io::Error>)
    ensures
        match r {
            Ok(out) => xz_decoded(src@) == Some(out@),
            Err(_) => xz_decoded(src@) is None,
        },
{
    let mut out = Vec::new();
    let mut dec = xz2::read::XzDecoder::new(src);
    std::io::Read::read_to_end(&mut dec, &mut out)?;
    Ok(out)
}

/// The id under which a codec stands in the index.
pub open spec fn codec_id(codec: Codec) -> u8 {
    match codec {
        Codec::Store => 0,
        Codec::Zstd => 1,
        Codec::Xz => 2,
    }
}

/// The codec with this id, if there is one.
pub open spec fn codec_of(id: u8) -> Option<Codec> {
    if id == 0 {
        Some(Codec::Store)
    } else if id == 1 {
        Some(Codec::Zstd)
    } else if id == 2 {
        Some(Codec::Xz)
    } else {
        None
    }
}

/// A codec's name.
pub open spec fn codec_name(codec: Codec) -> Seq<char> {
    match codec {
        Codec::Store => "store"@,
        Codec::Zstd => "zstd"@,
        Codec::Xz => "xz"@,
    }
}

/// The codec that a name means, in any case; some codecs have several names.
pub open spec fn codec_named(name: Seq<char>) -> Option<Codec> {
    let n = lowered(name);
    if n == "store"@ || n == "none"@ {
        Some(Codec::Store)
    } else if n == "zstd"@ {
        Some(Codec::Zstd)
    } else if n == "xz"@ || n == "lzma"@ || n == "lzma2"@ {
        Some(Codec::Xz)
    } else {
        None
    }
}

/// Codec ids are unambiguous: every codec is found again under its id, and no
/// two ids mean the same codec.
pub proof fn law_codec_ids(codec: Codec, id: u8)
    ensures
        codec_of(codec_id(codec)) == Some(codec),
        codec_of(id) == Some(codec) ==> id == codec_id(codec),
{
}

/// A codec is found again under its name.
pub proof fn law_codec_names(codec: Codec)
    ensures
        codec_named(codec_name(codec)) == Some(codec),
{
    reveal_strlit("store");
    reveal_strlit("zstd");
    reveal_strlit("xz");
    reveal_strlit("none");
    reveal_strlit("lzma");
    reveal_strlit("lzma2");
    assert(lowered(codec_name(codec)) =~= codec_name(codec));
    assert("store"@[0] == 's');
    assert("zstd"@[0] == 'z');
    assert("xz"@[0] == 'x');
    assert("none"@[0] == 'n');
    assert("lzma"@[0] == 'l');
}

/// The ids of the codecs, as they stand in archives: 0, 1 and 2, for bytes kept as they
/// are, zstd and xz. No other id has a meaning.
pub proof fn law_codec_id_table(id: u8)
    ensures
        codec_id(Codec::Store) == 0,
        codec_id(Codec::Zstd) == 1,
        codec_id(Codec::Xz) == 2,
        codec_of(id) is Some <==> id < 3,
{
}

/// The names under which codecs can be asked for, each with the codec that it means.
pub open spec fn codec_names() -> Seq<(Seq<char>, Codec)> {
    seq![
        ("store"@, Codec::Store),
        ("none"@, Codec::Store),
        ("zstd"@, Codec::Zstd),
        ("xz"@, Codec::Xz),
        ("lzma"@, Codec::Xz),
        ("lzma2"@, Codec::Xz),
    ]
}

/// A codec can be asked for by these names, in any case, and by no others; and each codec
/// says the first of its names.
pub proof fn law_codec_name_table(name: Seq<char>, codec: Codec)
    ensures
        codec_named(name) == Some(codec) <==> codec_names().contains((lowered(name), codec)),
        codec_named(name) is None <==> forall|c: Codec| !#[trigger] codec_names().contains(
            (lowered(name), c),
        ),
        codec_named(lowered(name)) == codec_named(name),
        codec_names().len() == 6,
        codec_name(Codec::Store) == codec_names()[0].0,
        codec_name(Codec::Zstd) == codec_names()[2].0,
        codec_name(Codec::Xz) == codec_names()[3].0,
{
    let all = codec_names();
    lemma_names_of(name, codec);
    if codec_named(name) is Some {
        lemma_names_of(name, codec_named(name)->0);
        assert(all.contains((lowered(name), codec_named(name)->0)));
    } else {
        assert forall|c: Codec| !#[trigger] all.contains((lowered(name), c)) by {
            lemma_names_of(name, c);
        }
    }
    assert(lowered(lowered(name)) =~= lowered(name));
}

proof fn lemma_names_of(name: Seq<char>, codec: Codec)
    ensures
        codec_named(name) == Some(codec) <==> codec_names().contains((lowered(name), codec)),
{
    let all = codec_names();
    reveal_strlit("store");
    reveal_strlit("none");
    reveal_strlit("zstd");
    reveal_strlit("xz");
    reveal_strlit("lzma");
    reveal_strlit("lzma2");
    assert("store"@[0] == 's');
    assert("none"@[0] == 'n');
    assert("zstd"@[0] == 'z');
    assert("xz"@[0] == 'x');
    assert("lzma"@[0] == 'l');
    assert("lzma2"@[0] == 'l');
    assert(all[0] == ("store"@, Codec::Store));
    assert(all[1] == ("none"@, Codec::Store));
    assert(all[2] == ("zstd"@, Codec::Zstd));
    assert(all[3] == ("xz"@, Codec::Xz));
    assert(all[4] == ("lzma"@, Codec::Xz));
    assert(all[5] == ("lzma2"@, Codec::Xz));
    if codec_named(name) == Some(codec) {
        assert(exists|i: int| 0 <= i < all.len() && #[trigger] all[i] == (lowered(name), codec));
    }
}

impl Codec {
    pub fn as_u8(self) -> (id: u8)
        ensures
            id == codec_id(self),
    {
        match self {
            Codec::Store => 0,
            Codec::Zstd => 1,
            Codec::Xz => 2,
        }
    }

    pub fn from_u8(v: u8) -> (r: Result<Codec, Error>)
        ensures
            match r {
                Ok(codec) => codec_of(v) == Some(codec),
                Err(e) => codec_of(v) is None && e.fault == Fault::UnknownCodec(v),
            },
    {
        if v == 0 {
            Ok(Codec::Store)
        } else if v == 1 {
            Ok(Codec::Zstd)
        } else if v == 2 {
            Ok(Codec::Xz)
        } else {
            Err(Error::new(Fault::UnknownCodec(v)))
        }
    }

    pub fn name(self) -> (n: &'static str)
        ensures
            n@ == codec_name(self),
    {
        match self {
            Codec::Store => "store",
            Codec::Zstd => "zstd",
            Codec::Xz => "xz",
        }
    }

    pub fn parse(s: &str) -> (r: Result<Codec, Error>)
        ensures
            match r {
                Ok(codec) => codec_named(s@) == Some(codec),
                Err(e) => codec_named(s@) is None && e.fault == Fault::UnknownCodecName,
            },
    {
        let folded = lower_text(&chars_of(s));
        let name = text_from(&folded, 0);
        assert(name@ =~= lowered(s@));
        if same_text(&name, "store") || same_text(&name, "none") {
            Ok(Codec::Store)
        } else if same_text(&name, "zstd") {
            Ok(Codec::Zstd)
        } else if same_text(&name, "xz") || same_text(&name, "lzma") || same_text(&name, "lzma2") {
            Ok(Codec::Xz)
        } else {
            Err(Error::new(Fault::UnknownCodecName))
        }
    }
}

/// The least window log from `log` on whose window holds a block, or the upper
/// bound if that comes first.
pub open spec fn window_log_from(log: u32, block_size: int) -> u32
    decreases MAX_WINDOW_LOG - log,
{
    if log >= MAX_WINDOW_LOG || pow2(log as nat) >= block_size {
        log
    } else {
        window_log_from((log + 1) as u32, block_size)
    }
}

/// The window log for a block size.
pub open spec fn window_log_of(block_size: int) -> u32 {
    window_log_from(10, block_size)
}

/// Window log to request from zstd. A larger window is what lets the codec
/// match against data far earlier in the same solid block.
pub fn window_log_for(block_size: usize) -> (log: u32)
    ensures
        log == window_log_of(block_size as int),
        10 <= log <= MAX_WINDOW_LOG,
        log < MAX_WINDOW_LOG ==> pow2(log as nat) >= block_size,
        log > 10 ==> pow2((log - 1) as nat) < block_size,
{
    let mut log: u32 = 10;
    let mut reach: usize = 1024;
    proof {
        vstd::arithmetic::power2::lemma2_to64();
    }
    while reach < block_size && log < MAX_WINDOW_LOG
        invariant
            10 <= log <= MAX_WINDOW_LOG,
            reach == pow2(log as nat),
            reach <= 0x800_0000,
            pow2(27) == 0x800_0000,
            window_log_of(block_size as int) == window_log_from(log, block_size as int),
            log > 10 ==> pow2((log - 1) as nat) < block_size,
        decreases MAX_WINDOW_LOG - log,
    {
        proof {
            vstd::arithmetic::power2::lemma_pow2_unfold((log + 1) as nat);
            if log + 1 < 27 {
                vstd::arithmetic::power2::lemma_pow2_strictly_increases((log + 1) as nat, 27);
            }
        }
        reach = reach * 2;
        log += 1;
    }
    log
}

/// The xz preset for a level.
pub open spec fn xz_preset(level: i32) -> u32 {
    if level < 0 {
        0
    } else if level > 9 {
        9
    } else {
        level as u32
    }
}

/// The number of zstd workers for a number of CPUs.
pub open spec fn workers_for(cpus: int) -> int {
    if cpus < MAX_WORKERS {
        cpus
    } else {
        MAX_WORKERS as int
    }
}

/// `frame` is `src` encoded as one block.
pub open spec fn is_block_of(
    frame: Seq<u8>,
    src: Seq<u8>,
    codec: Codec,
    level: i32,
    block_size: int,
    workers: u32,
) -> bool {
    match codec {
        Codec::Store => frame == src,
        Codec::Zstd => zstd_frame(frame, src, level, window_log_of(block_size), workers),
        Codec::Xz => xz_stream(frame, src, xz_preset(level)),
    }
}

/// The codec may fail to encode `src` as one block: zstd may, on what it has been fed
/// by then, and xz does where `src` is longer than it takes.
pub open spec fn is_refused(
    src: Seq<u8>,
    codec: Codec,
    level: i32,
    block_size: int,
    workers: u32,
) -> bool {
    match codec {
        Codec::Store => false,
        Codec::Zstd => exists|n: int|
            0 <= n <= src.len() && #[trigger] zstd_refuses(
                src.take(n),
                level,
                window_log_of(block_size),
                workers,
            ),
        Codec::Xz => src.len() > XZ_MAX,
    }
}

/// What a block's bytes decode to before its length is checked.
pub open spec fn raw_decoded(codec: Codec, src: Seq<u8>) -> Option<Seq<u8>> {
    match codec {
        Codec::Store => Some(src),
        Codec::Zstd => zstd_decoded(src, MAX_WINDOW_LOG),
        Codec::Xz => xz_decoded(src),
    }
}

/// What a block's bytes decode to, given the length that the index announces.
pub open spec fn decoded_block(codec: Codec, src: Seq<u8>, raw_len: u64) -> Result<Seq<u8>, Fault> {
    match raw_decoded(codec, src) {
        None => Err(Fault::BlockFrame),
        Some(d) => checked_length(d, raw_len),
    }
}

/// Decoded bytes are accepted only at the announced length.
pub open spec fn checked_length(d: Seq<u8>, raw_len: u64) -> Result<Seq<u8>, Fault> {
    if d.len() == raw_len {
        Ok(d)
    } else {
        Err(Fault::BlockLength { got: d.len() as u64, want: raw_len })
    }
}

/// A window log suits a block size: its window holds a whole block, and no smaller one
/// does, within the bounds of 1 KiB and 128 MiB.
pub open spec fn suits(log: u32, block_size: int) -> bool {
    &&& 10 <= log <= 27
    &&& log < 27 ==> block_size <= pow2(log as nat)
    &&& log > 10 ==> pow2((log - 1) as nat) < block_size
}

proof fn lemma_window_log_from(log: u32, block_size: int)
    requires
        10 <= log <= 27,
        log > 10 ==> pow2((log - 1) as nat) < block_size,
    ensures
        suits(window_log_from(log, block_size), block_size),
    decreases 27 - log,
{
    if log < 27 && pow2(log as nat) < block_size {
        lemma_window_log_from((log + 1) as u32, block_size);
    }
}

/// The window that zstd is asked for suits the block size, and a reader accepts it.
pub proof fn law_window_suits(block_size: int)
    ensures
        suits(window_log_of(block_size), block_size),
        window_log_of(block_size) <= MAX_WINDOW_LOG,
        block_size >= 0x800_0000 ==> window_log_of(block_size) == 27,
        block_size <= 1024 ==> window_log_of(block_size) == 10,
{
    vstd::arithmetic::power2::lemma2_to64();
    lemma_window_log_from(10, block_size);
    let log = window_log_of(block_size);
    if log < 27 && block_size >= 0x800_0000 {
        vstd::arithmetic::power2::lemma_pow2_strictly_increases(log as nat, 27);
    }
    if log > 11 && block_size <= 1024 {
        vstd::arithmetic::power2::lemma_pow2_strictly_increases(10, (log - 1) as nat);
    }
}

/// A larger block is never given a smaller window.
pub proof fn law_window_grows(a: int, b: int)
    requires
        a <= b,
    ensures
        window_log_of(a) <= window_log_of(b),
{
    law_window_suits(a);
    law_window_suits(b);
    let m = window_log_of(a);
    let n = window_log_of(b);
    if n < m - 1 {
        vstd::arithmetic::power2::lemma_pow2_strictly_increases(n as nat, (m - 1) as nat);
    }
}

/// How far apart two numbers are.
pub open spec fn gap(a: int, b: int) -> int {
    if a < b {
        b - a
    } else {
        a - b
    }
}

/// The xz preset for a level is the one next to it, among 0 to 9.
pub proof fn law_nearest_preset(level: i32, other: u32)
    requires
        other <= 9,
    ensures
        xz_preset(level) <= 9,
        gap(xz_preset(level) as int, level as int) <= gap(other as int, level as int),
{
}

/// zstd gets as many workers as there are CPUs, and never more than 16.
pub proof fn law_workers(cpus: int)
    ensures
        workers_for(cpus) <= cpus,
        workers_for(cpus) <= 16,
        workers_for(cpus) == cpus || workers_for(cpus) == 16,
{
}

/// `frame` is what the codec makes of `raw` at a level: the bytes themselves, or a zstd
/// frame made at that level with a window that suits the block size, or an xz stream made
/// at the preset next to that level.
pub open spec fn is_made_at(
    frame: Seq<u8>,
    raw: Seq<u8>,
    codec: Codec,
    level: i32,
    block_size: int,
) -> bool {
    match codec {
        Codec::Store => frame == raw,
        Codec::Zstd => exists|log: u32, workers: u32|
            suits(log, block_size) && 1 <= workers <= 16 && #[trigger] zstd_frame(
                frame,
                raw,
                level,
                log,
                workers,
            ),
        Codec::Xz => exists|preset: u32|
            {
                &&& #[trigger] xz_stream(frame, raw, preset)
                &&& preset <= 9
                &&& forall|other: u32|
                    other <= 9 ==> gap(preset as int, level as int) <= #[trigger] gap(
                        other as int,
                        level as int,
                    )
            },
    }
}

/// A block is what its codec makes at its level.
pub proof fn law_blocks_are_made_at(
    frame: Seq<u8>,
    raw: Seq<u8>,
    codec: Codec,
    level: i32,
    block_size: int,
    workers: u32,
)
    requires
        is_block_of(frame, raw, codec, level, block_size, workers),
        1 <= workers <= 16,
    ensures
        is_made_at(frame, raw, codec, level, block_size),
{
    match codec {
        Codec::Store => {},
        Codec::Zstd => {
            law_window_suits(block_size);
            assert(zstd_frame(frame, raw, level, window_log_of(block_size), workers));
        },
        Codec::Xz => {
            let preset = xz_preset(level);
            assert forall|other: u32| other <= 9 implies gap(preset as int, level as int)
                <= #[trigger] gap(other as int, level as int) by {
                law_nearest_preset(level, other);
            }
            assert(xz_stream(frame, raw, preset));
        },
    }
}

/// A block is accepted only at the length that the index announces, and is then what its
/// codec decodes, under a window limit of 128 MiB; else both lengths are told. Bytes that
/// are kept as they are decode to themselves.
pub proof fn law_decoded_block(codec: Codec, src: Seq<u8>, raw_len: u64)
    ensures
        decoded_block(codec, src, raw_len) matches Ok(d) ==> {
            &&& d.len() == raw_len
            &&& match codec {
                Codec::Store => d == src,
                Codec::Zstd => zstd_decoded(src, 27) == Some(d),
                Codec::Xz => xz_decoded(src) == Some(d),
            }
        },
        codec == Codec::Zstd && zstd_decoded(src, 27) is None ==> decoded_block(codec, src, raw_len)
            == Err::<Seq<u8>, Fault>(Fault::BlockFrame),
        codec == Codec::Xz && xz_decoded(src) is None ==> decoded_block(codec, src, raw_len) == Err::<
            Seq<u8>,
            Fault,
        >(Fault::BlockFrame),
        codec == Codec::Store && src.len() == raw_len ==> decoded_block(codec, src, raw_len) == Ok::<
            Seq<u8>,
            Fault,
        >(src),
        codec == Codec::Zstd && zstd_decoded(src, 27) is Some && zstd_decoded(src, 27)->0.len()
            == raw_len ==> decoded_block(codec, src, raw_len) is Ok,
        codec == Codec::Xz && xz_decoded(src) is Some && xz_decoded(src)->0.len() == raw_len
            ==> decoded_block(codec, src, raw_len) is Ok,
        codec == Codec::Store && src.len() <= u64::MAX && src.len() != raw_len ==> decoded_block(
            codec,
            src,
            raw_len,
        ) == Err::<Seq<u8>, Fault>(Fault::BlockLength { got: src.len() as u64, want: raw_len }),
{
}

/// The number of zstd workers to request on a machine with `cpus` CPUs.
pub fn worker_count(cpus: usize) -> (n: u32)
    ensures
        n == workers_for(cpus as int),
{
    if cpus < MAX_WORKERS as usize {
        cpus as u32
    } else {
        MAX_WORKERS
    }
}

/// Encode `src` as one complete block with the given number of zstd workers,
/// and append it to `out`. Returns the number of *uncompressed* bytes consumed.
pub fn encode_block_with(
    codec: Codec,
    level: i32,
    block_size: usize,
    workers: u32,
    src: &[u8],
    out: &mut Output,
) -> (r: Result<u64, Error>)
    requires
        old(out).wf(),
    ensures
        final(out).wf(),
        final(out).handed_on() == old(out).handed_on(),
        match r {
            Ok(n) => {
                &&& n == src@.len()
                &&& exists|frame: Seq<u8>|
                    {
                        &&& final(out)@ == old(out)@ + frame
                        &&& #[trigger] is_block_of(
                            frame,
                            src@,
                            codec,
                            level,
                            block_size as int,
                            workers,
                        )
                        &&& decoded_block(codec, frame, n) == Ok::<Seq<u8>, Fault>(src@)
                    }
            },
            Err(e) => {
                &&& final(out)@ == old(out)@
                &&& e.fault == Fault::TooLong || e.fault == Fault::Encoder
                &&& e.fault == Fault::Encoder ==> is_refused(
                    src@,
                    codec,
                    level,
                    block_size as int,
                    workers,
                )
                &&& e.fault == Fault::TooLong ==> exists|frame: Seq<u8>|
                    {
                        &&& #[trigger] is_block_of(
                            frame,
                            src@,
                            codec,
                            level,
                            block_size as int,
                            workers,
                        )
                        &&& old(out)@.len() + frame.len() > u64::MAX
                    }
            },
        },
{
    let n: u64 = src.len() as u64;
    let mut coder = match BlockCoder::begin(codec, level, block_size, workers) {
        Ok(coder) => coder,
        Err(e) => {
            proof {
                lemma_refused_whole(Seq::empty(), src@, codec, level, block_size as int, workers);
            }
            return Err(e);
        },
    };
    assert(Seq::<u8>::empty() + src@ =~= src@);
    let mut frame = match coder.feed(src) {
        Ok(frame) => frame,
        Err(e) => {
            return Err(e);
        },
    };
    let ghost first = frame@;
    assert(Seq::<u8>::empty() + first =~= first);
    let mut rest = match coder.close() {
        Ok(rest) => rest,
        Err(e) => {
            return Err(e);
        },
    };
    frame.append(&mut rest);
    assert(frame@ =~= coder.made());
    assert(is_block_of(frame@, src@, codec, level, block_size as int, workers));
    match out.write(&frame) {
        Ok(()) => Ok(n),
        Err(e) => Err(e),
    }
}

/// What fails on a beginning fails on the whole.
pub proof fn lemma_refused_whole(
    part: Seq<u8>,
    src: Seq<u8>,
    codec: Codec,
    level: i32,
    block_size: int,
    workers: u32,
)
    requires
        part.is_prefix_of(src),
        is_refused(part, codec, level, block_size, workers),
    ensures
        is_refused(src, codec, level, block_size, workers),
{
    if codec == Codec::Zstd {
        let n = choose|n: int|
            0 <= n <= part.len() && #[trigger] zstd_refuses(
                part.take(n),
                level,
                window_log_of(block_size),
                workers,
            );
        assert(src.take(n) =~= part.take(n));
    }
}

/// How many workers zstd gets: as many as this machine has CPUs, up to a bound.
pub fn workers_here() -> (n: u32)
    ensures
        1 <= n <= MAX_WORKERS,
{
    worker_count(cpu_count())
}

/// Encode `src` as one complete block and append it to `out`. Returns the
/// number of *uncompressed* bytes consumed; the caller measures the compressed
/// length from the stream's position, since only it knows where the block
/// began. zstd gets as many workers as this machine has CPUs, up to a bound.
pub fn encode_block(codec: Codec, level: i32, block_size: usize, src: &[u8], out: &mut Output) -> (r:
    Result<u64, Error>)
    requires
        old(out).wf(),
    ensures
        final(out).wf(),
        final(out).handed_on() == old(out).handed_on(),
        match r {
            Ok(n) => {
                &&& n == src@.len()
                &&& exists|frame: Seq<u8>, workers: u32|
                    {
                        &&& final(out)@ == old(out)@ + frame
                        &&& 1 <= workers <= MAX_WORKERS
                        &&& #[trigger] is_block_of(
                            frame,
                            src@,
                            codec,
                            level,
                            block_size as int,
                            workers,
                        )
                        &&& decoded_block(codec, frame, n) == Ok::<Seq<u8>, Fault>(src@)
                    }
            },
            Err(e) => {
                &&& final(out)@ == old(out)@
                &&& e.fault == Fault::TooLong || e.fault == Fault::Encoder
                &&& e.fault == Fault::Encoder ==> exists|workers: u32|
                    1 <= workers <= MAX_WORKERS && #[trigger] is_refused(
                        src@,
                        codec,
                        level,
                        block_size as int,
                        workers,
                    )
                &&& e.fault == Fault::TooLong ==> exists|frame: Seq<u8>, workers: u32|
                    {
                        &&& #[trigger] is_block_of(
                            frame,
                            src@,
                            codec,
                            level,
                            block_size as int,
                            workers,
                        )
                        &&& old(out)@.len() + frame.len() > u64::MAX
                    }
            },
        },
{
    let workers = workers_here();
    encode_block_with(codec, level, block_size, workers, src, out)
}

/// Accept decoded bytes only at the length that the index announces.
pub fn check_block_length(out: Vec<u8>, raw_len: u64) -> (r: Result<Vec<u8>, Error>)
    ensures
        match r {
            Ok(d) => checked_length(out@, raw_len) == Ok::<Seq<u8>, Fault>(d@),
            Err(e) => checked_length(out@, raw_len) == Err::<Seq<u8>, Fault>(e.fault),
        },
{
    if out.len() as u64 != raw_len {
        let got: u64 = out.len() as u64;
        return Err(Error::new(Fault::BlockLength { got, want: raw_len }));
    }
    Ok(out)
}

/// Decode one block. `raw_len` is taken from the index and used to reject
/// blocks that decode to the wrong size.
pub fn decode_block(codec: Codec, src: &[u8], raw_len: u64) -> (r: Result<Vec<u8>, Error>)
    ensures
        match r {
            Ok(d) => decoded_block(codec, src@, raw_len) == Ok::<Seq<u8>, Fault>(d@),
            Err(e) => decoded_block(codec, src@, raw_len) == Err::<Seq<u8>, Fault>(e.fault),
        },
{
    let out: Vec<u8> = match codec {
        Codec::Store => {
            let mut kept: Vec<u8> = Vec::new();
            kept.extend_from_slice(src);
            assert(kept@ =~= src@);
            kept
        },
        Codec::Zstd => match zstd_decode(src, MAX_WINDOW_LOG) {
            Ok(out) => out,
            Err(e) => {
                return Err(Error::io(Fault::BlockFrame, e));
            },
        },
        Codec::Xz => match xz_decode(src) {
            Ok(out) => out,
            Err(e) => {
                return Err(Error::io(Fault::BlockFrame, e));
            },
        },
    };
    check_block_length(out, raw_len)
}

} // verus!
