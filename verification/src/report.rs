//! What the command line needs beside the archive operations: settings from
//! flags, and the figures that a listing or a summary shows.

use vstd::prelude::*;

use crate::codec::{codec_name, codec_of, Codec};
use crate::error::{Error, Fault};
use crate::extract::ExtractOptions;
use crate::index::{BlockInfo, Entry, EntryView, Kind};
use crate::text::{same_text, text_le};
use crate::writer::{WriteOptions, DEFAULT_BLOCK_SIZE};

verus! {

/// Bytes in a MiB.
pub const MIB: usize = 1_048_576;

/// The level that a codec has unless another is asked for.
pub open spec fn default_level(codec: Codec) -> i32 {
    match codec {
        Codec::Zstd => 12,
        Codec::Xz => 6,
        Codec::Store => 0,
    }
}

/// The codec and level that a preset stands for, if there is one of that name.
pub open spec fn preset_of(name: Seq<char>) -> Option<(Codec, i32)> {
    if name == "fast"@ {
        Some((Codec::Zstd, 3))
    } else if name == "balanced"@ {
        Some((Codec::Zstd, 12))
    } else if name == "max"@ {
        Some((Codec::Xz, 9))
    } else {
        None
    }
}

/// The codec and level that the flags ask for.
pub open spec fn settings(preset: Option<Seq<char>>, codec: Codec, level: Option<i32>) -> Option<
    (Codec, i32),
> {
    match preset {
        Some(name) => preset_of(name),
        None => Some(
            (
                codec,
                match level {
                    Some(l) => l,
                    None => default_level(codec),
                },
            ),
        ),
    }
}

/// The presets, each with the codec and the level that it stands for.
pub open spec fn presets() -> Seq<(Seq<char>, Codec, i32)> {
    seq![
        ("fast"@, Codec::Zstd, 3i32),
        ("balanced"@, Codec::Zstd, 12i32),
        ("max"@, Codec::Xz, 9i32),
    ]
}

/// These are the presets, and there are no others. A preset stands for both codec and
/// level, whatever else is asked for; any other name is refused. Without a preset the codec
/// is the one asked for, and so is the level if one is; else it is 12 for zstd, 6 for xz and
/// 0 for bytes kept as they are. What is asked for by default is the preset `balanced`.
pub proof fn law_settings(name: Seq<char>, codec: Codec, level: Option<i32>, c: Codec, l: i32)
    ensures
        presets().len() == 3,
        settings(Some(name), codec, level) == Some((c, l)) <==> presets().contains((name, c, l)),
        settings(Some(name), codec, level) is None <==> forall|i: int|
            0 <= i < presets().len() ==> (#[trigger] presets()[i]).0 != name,
        settings(None, codec, Some(l)) == Some((codec, l)),
        settings(None, Codec::Zstd, None) == Some((Codec::Zstd, 12i32)),
        settings(None, Codec::Xz, None) == Some((Codec::Xz, 6i32)),
        settings(None, Codec::Store, None) == Some((Codec::Store, 0i32)),
        settings(Some("balanced"@), codec, level) == settings(None, Codec::Zstd, None),
{
    let all = presets();
    reveal_strlit("fast");
    reveal_strlit("balanced");
    reveal_strlit("max");
    assert("fast"@[0] == 'f');
    assert("balanced"@[0] == 'b');
    assert("max"@[0] == 'm');
    assert(all[0] == ("fast"@, Codec::Zstd, 3i32));
    assert(all[1] == ("balanced"@, Codec::Zstd, 12i32));
    assert(all[2] == ("max"@, Codec::Xz, 9i32));
    if settings(Some(name), codec, level) == Some((c, l)) {
        assert(exists|i: int| 0 <= i < all.len() && #[trigger] all[i] == (name, c, l));
    }
    if settings(Some(name), codec, level) is Some {
        assert(exists|i: int| 0 <= i < all.len() && (#[trigger] all[i]).0 == name);
    }
}

/// A MiB is 1024 times 1024 bytes, and a block has 64 of them unless another size is asked
/// for.
pub proof fn law_block_sizes()
    ensures
        MIB == 1024 * 1024,
        DEFAULT_BLOCK_SIZE == 64 * 1024 * 1024,
{
}

/// The codec and level that the flags ask for. A preset stands for both.
pub fn choose_settings(preset: &Option<String>, codec: Codec, level: Option<i32>) -> (r: Result<
    (Codec, i32),
    Error,
>)
    ensures
        match r {
            Ok(s) => settings(crate::index::text_view(*preset), codec, level) == Some(s),
            Err(e) => settings(crate::index::text_view(*preset), codec, level) is None && e.fault
                == Fault::UnknownPreset,
        },
{
    match preset {
        None => {
            let chosen: i32 = match level {
                Some(l) => l,
                None => match codec {
                    Codec::Zstd => 12,
                    Codec::Xz => 6,
                    Codec::Store => 0,
                },
            };
            Ok((codec, chosen))
        },
        Some(name) => {
            if same_text(name, "fast") {
                Ok((Codec::Zstd, 3))
            } else if same_text(name, "balanced") {
                Ok((Codec::Zstd, 12))
            } else if same_text(name, "max") {
                Ok((Codec::Xz, 9))
            } else {
                Err(Error::new(Fault::UnknownPreset))
            }
        },
    }
}

/// A block size given in MiB, in bytes. It must be at least one.
pub fn block_size_bytes(mib: usize) -> (r: Result<usize, Error>)
    requires
        mib * MIB <= usize::MAX,
    ensures
        match r {
            Ok(n) => n == mib * MIB && mib > 0,
            Err(e) => mib == 0 && e.fault == Fault::ZeroBlockSize,
        },
{
    if mib == 0 {
        return Err(Error::new(Fault::ZeroBlockSize));
    }
    Ok(mib * MIB)
}

/// The options for creating an archive that the flags ask for. The preset is
/// looked at before the block size.
pub fn write_options(
    preset: &Option<String>,
    codec: Codec,
    level: Option<i32>,
    block_size_mib: usize,
    dedup: bool,
    fast_lane: bool,
    follow_symlinks: bool,
) -> (r: Result<WriteOptions, Error>)
    requires
        block_size_mib * MIB <= usize::MAX,
    ensures
        match settings(crate::index::text_view(*preset), codec, level) {
            None => r matches Err(e) && e.fault == Fault::UnknownPreset,
            Some((c, l)) => if block_size_mib == 0 {
                r matches Err(e) && e.fault == Fault::ZeroBlockSize
            } else {
                r matches Ok(o) && o == (WriteOptions {
                    codec: c,
                    level: l,
                    block_size: (block_size_mib * MIB) as usize,
                    dedup,
                    fast_lane,
                    follow_symlinks,
                })
            },
        },
{
    let (codec, level) = match choose_settings(preset, codec, level) {
        Ok(s) => s,
        Err(e) => {
            return Err(e);
        },
    };
    let block_size = match block_size_bytes(block_size_mib) {
        Ok(n) => n,
        Err(e) => {
            return Err(e);
        },
    };
    Ok(WriteOptions { codec, level, block_size, dedup, fast_lane, follow_symlinks })
}

/// The options for extracting that the flags ask for: to skip the checksums, to
/// keep what already exists, and to restore no metadata.
pub fn extract_options(skip_check: bool, keep_existing: bool, plain: bool) -> (o: ExtractOptions)
    ensures
        o == (ExtractOptions {
            restore_mode: !plain,
            restore_mtime: !plain,
            verify: !skip_check,
            overwrite: !keep_existing,
        }),
{
    ExtractOptions {
        restore_mode: !plain,
        restore_mtime: !plain,
        verify: !skip_check,
        overwrite: !keep_existing,
    }
}

/// The selection that the paths on a command line mean: all of the archive, if
/// there are none.
pub fn selection(paths: Vec<String>) -> (r: Option<Vec<String>>)
    ensures
        match r {
            Some(patterns) => patterns@ == paths@ && paths@.len() > 0,
            None => paths@.len() == 0,
        },
{
    if paths.len() == 0 {
        None
    } else {
        Some(paths)
    }
}

/// An entry is the file with this path.
pub open spec fn is_file_at(e: EntryView, path: Seq<char>) -> bool {
    e.kind == Kind::File && e.path == path
}

/// The first file entry with this path.
pub fn find_file(entries: &Vec<Entry>, path: &str) -> (r: Option<usize>)
    ensures
        match r {
            Some(k) => {
                &&& k < entries@.len()
                &&& entries@[k as int].kind == Kind::File
                &&& entries@[k as int].path@ == path@
                &&& is_file_at(entries@[k as int]@, path@)
                &&& forall|i: int| 0 <= i < k ==> !is_file_at(#[trigger] entries@[i]@, path@)
            },
            None => forall|i: int|
                0 <= i < entries@.len() ==> !is_file_at(#[trigger] entries@[i]@, path@),
        },
{
    let mut i: usize = 0;
    while i < entries.len()
        invariant
            i <= entries@.len(),
            forall|k: int| 0 <= k < i ==> !is_file_at(#[trigger] entries@[k]@, path@),
        decreases entries@.len() - i,
    {
        if entries[i].kind == Kind::File && same_text(&entries[i].path, path) {
            return Some(i);
        }
        i += 1;
    }
    None
}

/// The letter that a long listing shows for a kind.
pub fn kind_mark(kind: Kind) -> (c: char)
    ensures
        c == match kind {
            Kind::Dir => 'd',
            Kind::File => '-',
            Kind::Symlink => 'l',
        },
{
    match kind {
        Kind::Dir => 'd',
        Kind::File => '-',
        Kind::Symlink => 'l',
    }
}

/// The permission bits that a long listing shows.
pub fn listed_mode(mode: u32) -> (m: u32)
    ensures
        m == mode & 0o777,
        m < 0o1000,
        m == mode % 0o1000,
{
    assert(mode & 0o777 == mode % 0o1000) by (bit_vector);
    mode & 0o777
}

/// The block that a long listing shows: that of the first segment.
pub fn first_block(e: &Entry) -> (r: Option<u32>)
    ensures
        r == if e.segments@.len() > 0 {
            Some(e.segments@[0].block)
        } else {
            None
        },
{
    if e.segments.len() > 0 {
        Some(e.segments[0].block)
    } else {
        None
    }
}

/// The bytes that blocks hold after decoding.
pub open spec fn raw_bytes(blocks: Seq<BlockInfo>) -> nat
    decreases blocks.len(),
{
    if blocks.len() == 0 {
        0
    } else {
        raw_bytes(blocks.drop_last()) + blocks.last().rlen as nat
    }
}

/// The bytes that blocks occupy.
pub open spec fn stored_bytes(blocks: Seq<BlockInfo>) -> nat
    decreases blocks.len(),
{
    if blocks.len() == 0 {
        0
    } else {
        stored_bytes(blocks.drop_last()) + blocks.last().clen as nat
    }
}

/// The blocks of a codec.
pub open spec fn blocks_of(blocks: Seq<BlockInfo>, codec: Codec) -> Seq<BlockInfo>
    decreases blocks.len(),
{
    if blocks.len() == 0 {
        Seq::empty()
    } else {
        let init = blocks_of(blocks.drop_last(), codec);
        if codec_of(blocks.last().codec) == Some(codec) {
            init.push(blocks.last())
        } else {
            init
        }
    }
}

proof fn lemma_bytes_take(blocks: Seq<BlockInfo>, n: int)
    requires
        0 <= n <= blocks.len(),
    ensures
        raw_bytes(blocks.take(n)) <= raw_bytes(blocks),
        stored_bytes(blocks.take(n)) <= stored_bytes(blocks),
    decreases blocks.len() - n,
{
    if n < blocks.len() {
        assert(blocks.take(n + 1).drop_last() =~= blocks.take(n));
        lemma_bytes_take(blocks, n + 1);
    } else {
        assert(blocks.take(n) =~= blocks);
    }
}

proof fn lemma_blocks_of_bytes(blocks: Seq<BlockInfo>, codec: Codec)
    ensures
        raw_bytes(blocks_of(blocks, codec)) <= raw_bytes(blocks),
        stored_bytes(blocks_of(blocks, codec)) <= stored_bytes(blocks),
        blocks_of(blocks, codec).len() <= blocks.len(),
    decreases blocks.len(),
{
    if blocks.len() > 0 {
        lemma_blocks_of_bytes(blocks.drop_last(), codec);
        let init = blocks_of(blocks.drop_last(), codec);
        assert(init.push(blocks.last()).drop_last() =~= init);
    }
}

/// The bytes that some blocks hold and occupy, if they can be said in 64 bits.
pub fn block_totals(blocks: &Vec<BlockInfo>) -> (r: Option<(u64, u64)>)
    ensures
        match r {
            Some((raw, stored)) => raw == raw_bytes(blocks@) && stored == stored_bytes(blocks@),
            None => raw_bytes(blocks@) > u64::MAX || stored_bytes(blocks@) > u64::MAX,
        },
{
    let mut raw: u64 = 0;
    let mut stored: u64 = 0;
    let mut i: usize = 0;
    assert(blocks@.take(0) =~= Seq::<BlockInfo>::empty());
    while i < blocks.len()
        invariant
            i <= blocks@.len(),
            raw == raw_bytes(blocks@.take(i as int)),
            stored == stored_bytes(blocks@.take(i as int)),
        decreases blocks@.len() - i,
    {
        proof {
            assert(blocks@.take(i + 1).drop_last() =~= blocks@.take(i as int));
            lemma_bytes_take(blocks@, i + 1);
        }
        match (raw.checked_add(blocks[i].rlen), stored.checked_add(blocks[i].clen)) {
            (Some(r), Some(s)) => {
                raw = r;
                stored = s;
            },
            _ => {
                return None;
            },
        }
        i += 1;
    }
    assert(blocks@.take(i as int) =~= blocks@);
    Some((raw, stored))
}

/// What deduplication saved before compression: how much more the files hold
/// than the blocks.
pub fn saved_bytes(logical: u64, stored: u64) -> (r: Option<u64>)
    ensures
        match r {
            Some(n) => logical > stored && n == logical - stored,
            None => logical <= stored,
        },
{
    if logical > stored {
        Some(logical - stored)
    } else {
        None
    }
}

/// The totals of the blocks of one codec.
#[derive(Debug, Clone, Copy, PartialEq, Eq, Structural)]
pub struct CodecTotal {
    pub codec: Codec,
    pub blocks: u64,
    pub raw: u64,
    pub stored: u64,
}

/// `t` says what the blocks of its codec come to.
pub open spec fn is_total_of(t: CodecTotal, blocks: Seq<BlockInfo>) -> bool {
    let own = blocks_of(blocks, t.codec);
    &&& t.blocks == own.len()
    &&& t.raw == raw_bytes(own)
    &&& t.stored == stored_bytes(own)
}

/// Every block names a codec.
pub open spec fn codecs_known(blocks: Seq<BlockInfo>) -> bool {
    forall|i: int| 0 <= i < blocks.len() ==> codec_of((#[trigger] blocks[i]).codec) is Some
}

/// The totals of the blocks of one codec.
fn codec_total(blocks: &Vec<BlockInfo>, codec: Codec) -> (t: CodecTotal)
    requires
        raw_bytes(blocks@) <= u64::MAX,
        stored_bytes(blocks@) <= u64::MAX,
        codecs_known(blocks@),
    ensures
        t.codec == codec,
        is_total_of(t, blocks@),
{
    let mut t = CodecTotal { codec, blocks: 0, raw: 0, stored: 0 };
    let mut i: usize = 0;
    let len: usize = blocks.len();
    assert(blocks@.take(0) =~= Seq::<BlockInfo>::empty());
    while i < len
        invariant
            i <= len == blocks@.len(),
            raw_bytes(blocks@) <= u64::MAX,
            stored_bytes(blocks@) <= u64::MAX,
            codecs_known(blocks@),
            t.codec == codec,
            is_total_of(t, blocks@.take(i as int)),
        decreases len - i,
    {
        proof {
            let upto = blocks@.take(i + 1);
            assert(upto.drop_last() =~= blocks@.take(i as int));
            lemma_bytes_take(blocks@, i + 1);
            lemma_blocks_of_bytes(upto, codec);
            let own = blocks_of(blocks@.take(i as int), codec);
            assert(own.push(blocks@[i as int]).drop_last() =~= own);
        }
        let b = blocks[i];
        if b.codec == codec.as_u8() {
            proof {
                crate::codec::law_codec_ids(codec, b.codec);
            }
            t.blocks = t.blocks + 1;
            t.raw = t.raw + b.rlen;
            t.stored = t.stored + b.clen;
        } else {
            proof {
                crate::codec::law_codec_ids(codec, b.codec);
            }
        }
        i += 1;
    }
    assert(blocks@.take(i as int) =~= blocks@);
    t
}

/// The totals by codec, in the order of the codecs' names, without codecs that
/// no block has.
pub open spec fn are_codec_totals(totals: Seq<CodecTotal>, blocks: Seq<BlockInfo>) -> bool {
    &&& forall|i: int|
        0 <= i < totals.len() ==> (#[trigger] totals[i]).blocks > 0 && is_total_of(
            totals[i],
            blocks,
        )
    &&& totals.map_values(|t: CodecTotal| t.codec) == present_codecs(blocks)
}

/// The codecs that some block has, in the order of their names.
pub open spec fn present_codecs(blocks: Seq<BlockInfo>) -> Seq<Codec> {
    let none = Seq::<Codec>::empty();
    let store = if blocks_of(blocks, Codec::Store).len() > 0 {
        none.push(Codec::Store)
    } else {
        none
    };
    let xz = if blocks_of(blocks, Codec::Xz).len() > 0 {
        store.push(Codec::Xz)
    } else {
        store
    };
    if blocks_of(blocks, Codec::Zstd).len() > 0 {
        xz.push(Codec::Zstd)
    } else {
        xz
    }
}

/// What blocks hold and occupy adds up: of one block it is what it says of itself, and of
/// two lists of blocks what the one and the other come to.
pub proof fn law_block_totals_add_up(a: Seq<BlockInfo>, b: Seq<BlockInfo>, one: BlockInfo)
    ensures
        raw_bytes(Seq::empty()) == 0,
        stored_bytes(Seq::empty()) == 0,
        raw_bytes(seq![one]) == one.rlen,
        stored_bytes(seq![one]) == one.clen,
        raw_bytes(a + b) == raw_bytes(a) + raw_bytes(b),
        stored_bytes(a + b) == stored_bytes(a) + stored_bytes(b),
    decreases b.len(),
{
    reveal_with_fuel(raw_bytes, 2);
    reveal_with_fuel(stored_bytes, 2);
    assert(seq![one].drop_last() =~= Seq::<BlockInfo>::empty());
    if b.len() == 0 {
        assert(a + b =~= a);
    } else {
        law_block_totals_add_up(a, b.drop_last(), one);
        assert((a + b).drop_last() =~= a + b.drop_last());
    }
}

/// The blocks of a codec are those that name it, and no others.
pub proof fn law_blocks_of(blocks: Seq<BlockInfo>, codec: Codec, b: BlockInfo)
    ensures
        blocks_of(blocks, codec).contains(b) <==> blocks.contains(b) && codec_of(b.codec) == Some(
            codec,
        ),
    decreases blocks.len(),
{
    if blocks.len() > 0 {
        let init = blocks.drop_last();
        let last = blocks.last();
        law_blocks_of(init, codec, b);
        assert(init.push(last) =~= blocks);
        lemma_contains_push(init, last, b);
        lemma_contains_push(blocks_of(init, codec), last, b);
    }
}

proof fn lemma_contains_push(s: Seq<BlockInfo>, last: BlockInfo, b: BlockInfo)
    ensures
        s.push(last).contains(b) <==> s.contains(b) || b == last,
{
    let t = s.push(last);
    if t.contains(b) {
        let i = choose|i: int| 0 <= i < t.len() && t[i] == b;
        if i < s.len() {
            assert(s[i] == b);
        }
    }
    if s.contains(b) {
        let i = choose|i: int| 0 <= i < s.len() && s[i] == b;
        assert(t[i] == b);
    }
    assert(t[s.len() as int] == last);
}

/// Every block counts for one codec: the blocks of the three codecs, what they hold and what
/// they occupy, come to all blocks, if all have a known codec.
pub proof fn law_codecs_share_the_blocks(blocks: Seq<BlockInfo>)
    requires
        codecs_known(blocks),
    ensures
        blocks_of(blocks, Codec::Store).len() + blocks_of(blocks, Codec::Zstd).len() + blocks_of(
            blocks,
            Codec::Xz,
        ).len() == blocks.len(),
        raw_bytes(blocks_of(blocks, Codec::Store)) + raw_bytes(blocks_of(blocks, Codec::Zstd))
            + raw_bytes(blocks_of(blocks, Codec::Xz)) == raw_bytes(blocks),
        stored_bytes(blocks_of(blocks, Codec::Store)) + stored_bytes(blocks_of(blocks, Codec::Zstd))
            + stored_bytes(blocks_of(blocks, Codec::Xz)) == stored_bytes(blocks),
    decreases blocks.len(),
{
    if blocks.len() > 0 {
        let init = blocks.drop_last();
        let last = blocks.last();
        assert forall|i: int| 0 <= i < init.len() implies codec_of(
            (#[trigger] init[i]).codec,
        ) is Some by {
            assert(init[i] == blocks[i]);
        }
        law_codecs_share_the_blocks(init);
        assert(codec_of(blocks[blocks.len() - 1].codec) is Some);
        assert(blocks_of(init, Codec::Store).push(last).drop_last() =~= blocks_of(
            init,
            Codec::Store,
        ));
        assert(blocks_of(init, Codec::Zstd).push(last).drop_last() =~= blocks_of(
            init,
            Codec::Zstd,
        ));
        assert(blocks_of(init, Codec::Xz).push(last).drop_last() =~= blocks_of(init, Codec::Xz));
    }
}

/// The codecs that are listed are those that some block has, each once, in the order of
/// their names.
pub proof fn law_present_codecs(blocks: Seq<BlockInfo>, codec: Codec)
    ensures
        present_codecs(blocks).contains(codec) <==> exists|b: BlockInfo|
            #![trigger blocks.contains(b)]
            blocks.contains(b) && codec_of(b.codec) == Some(codec),
        forall|i: int, j: int|
            0 <= i < j < present_codecs(blocks).len() ==> {
                let (a, b) = (
                    codec_name(#[trigger] present_codecs(blocks)[i]),
                    codec_name(#[trigger] present_codecs(blocks)[j]),
                );
                text_le(a, b) && a != b
            },
{
    let listed = present_codecs(blocks);
    let own = blocks_of(blocks, codec);
    let s = blocks_of(blocks, Codec::Store).len() > 0;
    let x = blocks_of(blocks, Codec::Xz).len() > 0;
    let z = blocks_of(blocks, Codec::Zstd).len() > 0;
    assert(listed.contains(codec) <==> own.len() > 0) by {
        if s {
            assert(listed[0] == Codec::Store);
        }
        if x {
            assert(listed[if s {
                1int
            } else {
                0int
            }] == Codec::Xz);
        }
        if z {
            assert(listed[listed.len() - 1] == Codec::Zstd);
        }
    }
    if own.len() > 0 {
        law_blocks_of(blocks, codec, own[0]);
        assert(own.contains(own[0]));
        assert(blocks.contains(own[0]));
    }
    if exists|b: BlockInfo|
        #![trigger blocks.contains(b)]
        blocks.contains(b) && codec_of(b.codec) == Some(codec) {
        let b = choose|b: BlockInfo|
            #![trigger blocks.contains(b)]
            blocks.contains(b) && codec_of(b.codec) == Some(codec);
        law_blocks_of(blocks, codec, b);
        assert(own.contains(b));
    }
    reveal_strlit("store");
    reveal_strlit("xz");
    reveal_strlit("zstd");
    assert("store"@[0] == 's');
    assert("xz"@[0] == 'x');
    assert("zstd"@[0] == 'z');
}

/// The totals by codec, in the order of the codecs' names. The first block with
/// an unknown codec is a fault.
pub fn codec_totals(blocks: &Vec<BlockInfo>) -> (r: Result<Vec<CodecTotal>, Error>)
    requires
        raw_bytes(blocks@) <= u64::MAX,
        stored_bytes(blocks@) <= u64::MAX,
    ensures
        match r {
            Ok(totals) => codecs_known(blocks@) && are_codec_totals(totals@, blocks@),
            Err(e) => exists|i: int|
                0 <= i < blocks@.len() && codecs_known(blocks@.take(i)) && codec_of(
                    (#[trigger] blocks@[i]).codec,
                ) is None && e.fault == Fault::UnknownCodec(blocks@[i].codec),
        },
{
    let mut i: usize = 0;
    while i < blocks.len()
        invariant
            i <= blocks@.len(),
            codecs_known(blocks@.take(i as int)),
        decreases blocks@.len() - i,
    {
        match Codec::from_u8(blocks[i].codec) {
            Ok(_) => {},
            Err(e) => {
                assert(codec_of(blocks@[i as int].codec) is None);
                return Err(e);
            },
        }
        proof {
            assert forall|k: int| 0 <= k < i + 1 implies codec_of(
                (#[trigger] blocks@.take(i + 1)[k]).codec,
            ) is Some by {
                if k < i {
                    assert(blocks@.take(i as int)[k] == blocks@[k]);
                }
            }
        }
        i += 1;
    }
    assert(blocks@.take(i as int) =~= blocks@);
    let store = codec_total(blocks, Codec::Store);
    let xz = codec_total(blocks, Codec::Xz);
    let zstd = codec_total(blocks, Codec::Zstd);
    let mut totals: Vec<CodecTotal> = Vec::new();
    if store.blocks > 0 {
        totals.push(store);
    }
    if xz.blocks > 0 {
        totals.push(xz);
    }
    if zstd.blocks > 0 {
        totals.push(zstd);
    }
    assert(totals@.map_values(|t: CodecTotal| t.codec) =~= present_codecs(blocks@));
    Ok(totals)
}

} // verus!
