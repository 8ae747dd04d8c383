//! On-disk layout: the fixed header, the index, and the trailing footer.
//!
//! ```text
//! +----------------+  offset 0
//! | Header (16 B)  |  magic + version, so `file(1)` can identify an archive
//! +----------------+
//! | Block 0        |  solid, independently decodable
//! | Block 1        |
//! | ...            |
//! +----------------+
//! | Index          |  zstd-compressed; paths, metadata, block map
//! +----------------+
//! | Footer (64 B)  |  where the index is, and its hash
//! +----------------+  end of file
//! ```
//!
//! The index lives at the end because block sizes are not known until the data
//! is written, and the footer is last and fixed-size so a reader can find the
//! index with two reads and never scan the archive. Every block records its own
//! offset, which is what makes single-file extraction possible without
//! decompressing everything before it.

use vstd::prelude::*;

use crate::bytes::{
    get_le, law_le_round_trip, law_le_value, le_bytes, le_value, lemma_byte_ranges,
    lemma_le_bytes_len, lemma_le_value_bound, put_le,
};
use crate::codec::{zstd_decode_all, zstd_encode_all, zstd_packed, zstd_unpacked};
use crate::digest::{blake3_of, digest, same_digest};
use crate::error::{Error, Fault};
use crate::raw::{deserialize_index, index_bytes, index_value, serialize_index};
use crate::stream::{
    answer_of, asked_for, lemma_asked_once, stays_true, window, Asked, Output, Source,
};

verus! {

pub const MAGIC: [u8; 4] = [69, 77, 66, 82];

pub const VERSION: u16 = 1;

pub const HEADER_LEN: u64 = 16;

pub const FOOTER_LEN: u64 = 64;

/// The bytes of the magic: ASCII `EMBR`.
pub open spec fn magic() -> Seq<u8> {
    seq![69u8, 77u8, 66u8, 82u8]
}

/// The header: the magic, the version, and ten reserved bytes, all zero.
pub open spec fn header_bytes() -> Seq<u8> {
    magic() + le_bytes(VERSION as nat, 2) + Seq::new(10, |i: int| 0u8)
}

/// The version that a header announces, or why it is refused.
pub open spec fn header_version(buf: Seq<u8>) -> Result<u16, Fault> {
    if buf.len() < HEADER_LEN {
        Err(Fault::TooShort)
    } else if buf.take(4) != magic() {
        Err(Fault::BadMagic)
    } else if le_value(buf.subrange(4, 6)) > VERSION {
        Err(Fault::NewerVersion(le_value(buf.subrange(4, 6)) as u16))
    } else {
        Ok(le_value(buf.subrange(4, 6)) as u16)
    }
}

/// A header that was written is accepted, whatever follows it.
pub proof fn law_header_round_trip(rest: Seq<u8>)
    ensures
        header_bytes().len() == HEADER_LEN,
        header_version(header_bytes() + rest) == Ok::<u16, Fault>(VERSION),
{
    lemma_byte_ranges();
    law_le_round_trip(VERSION as nat, 2);
    let all = header_bytes() + rest;
    assert(all.take(4) =~= magic());
    assert(all.subrange(4, 6) =~= le_bytes(VERSION as nat, 2));
}

/// The header of every archive: the letters `EMBR`, the version 1 in two bytes, and ten
/// zeros.
pub proof fn law_header_layout()
    ensures
        header_bytes() == seq![69u8, 77, 66, 82, 1, 0, 0, 0, 0, 0, 0, 0, 0, 0, 0, 0],
{
    reveal_with_fuel(le_bytes, 3);
    assert(1nat % 256 == 1 && 1nat / 256 == 0 && 0nat % 256 == 0) by (nonlinear_arith);
    assert(le_bytes(1, 2) =~= seq![1u8, 0u8]);
    assert(header_bytes() =~= seq![69u8, 77, 66, 82, 1, 0, 0, 0, 0, 0, 0, 0, 0, 0, 0, 0]);
}

/// Some bytes begin with the letters `EMBR`.
pub open spec fn begins_with_letters(s: Seq<u8>) -> bool {
    s.len() >= 4 && s[0] == 69 && s[1] == 77 && s[2] == 66 && s[3] == 82
}

/// An archive is accepted by its header exactly if that has 16 bytes, begins with the
/// letters `EMBR`, and announces a version that is not above 1, whatever else it holds.
/// That it is short is said first, then that the letters are wrong, then that it is newer.
pub proof fn law_header_is_checked(buf: Seq<u8>)
    ensures
        buf.len() < 16 ==> header_version(buf) == Err::<u16, Fault>(Fault::TooShort),
        buf.len() >= 16 && !begins_with_letters(buf) ==> header_version(buf) == Err::<u16, Fault>(
            Fault::BadMagic,
        ),
        buf.len() >= 16 && begins_with_letters(buf) ==> ({
            let version = buf[4] + 256 * buf[5];
            header_version(buf) == if version > 1 {
                Err::<u16, Fault>(Fault::NewerVersion(version as u16))
            } else {
                Ok::<u16, Fault>(version as u16)
            }
        }),
{
    if buf.len() >= 16 {
        law_le_value(buf.subrange(4, 6));
        let head = buf.take(4);
        assert(head[0] == buf[0] && head[1] == buf[1] && head[2] == buf[2] && head[3] == buf[3]);
        if begins_with_letters(buf) {
            assert(head =~= magic());
        }
    }
}

fn magic_bytes() -> (v: Vec<u8>)
    ensures
        v@ == magic(),
{
    let mut v: Vec<u8> = Vec::new();
    v.push(MAGIC[0]);
    v.push(MAGIC[1]);
    v.push(MAGIC[2]);
    v.push(MAGIC[3]);
    assert(v@ =~= magic());
    v
}

fn is_magic(buf: &[u8], from: usize) -> (r: bool)
    requires
        from + 4 <= buf@.len(),
    ensures
        r == (buf@.subrange(from as int, from + 4) == magic()),
{
    let len = buf.len();
    let r = buf[from] == MAGIC[0] && buf[from + 1] == MAGIC[1] && buf[from + 2] == MAGIC[2]
        && buf[from + 3] == MAGIC[3];
    proof {
        let s = buf@.subrange(from as int, from + 4);
        if r {
            assert(s =~= magic());
        } else if s == magic() {
            assert(s[0] == buf@[from as int] && s[1] == buf@[from + 1] && s[2] == buf@[from + 2]
                && s[3] == buf@[from + 3]);
        }
    }
    r
}

/// Written at offset 0. Intentionally tiny; everything variable lives in the
/// index so the header never needs to change shape.
pub fn write_header(out: &mut Output) -> (r: Result<(), Error>)
    requires
        old(out).wf(),
    ensures
        final(out).wf(),
        final(out).handed_on() == old(out).handed_on(),
        match r {
            Ok(()) => final(out)@ == old(out)@ + header_bytes(),
            Err(e) => {
                &&& final(out)@ == old(out)@
                &&& e.fault == Fault::TooLong
                &&& old(out)@.len() + HEADER_LEN > u64::MAX
            },
        },
{
    let mut buf = magic_bytes();
    let mut version = put_le(VERSION as u64, 2);
    buf.append(&mut version);
    let mut i: usize = 0;
    proof {
        lemma_le_bytes_len(VERSION as nat, 2);
        assert(buf@ =~= magic() + le_bytes(VERSION as nat, 2) + Seq::new(0, |k: int| 0u8));
    }
    while i < 10
        invariant
            i <= 10,
            buf@ == magic() + le_bytes(VERSION as nat, 2) + Seq::new(i as nat, |k: int| 0u8),
        decreases 10 - i,
    {
        buf.push(0);
        i += 1;
        assert(buf@ =~= magic() + le_bytes(VERSION as nat, 2) + Seq::new(i as nat, |k: int| 0u8));
    }
    out.write(&buf)
}

/// Check the first bytes of an archive and read the version from them.
pub fn read_header(buf: &[u8]) -> (r: Result<u16, Error>)
    ensures
        match r {
            Ok(v) => header_version(buf@) == Ok::<u16, Fault>(v),
            Err(e) => header_version(buf@) == Err::<u16, Fault>(e.fault),
        },
{
    if (buf.len() as u64) < HEADER_LEN {
        return Err(Error::new(Fault::TooShort));
    }
    assert(buf@.subrange(0, 4) =~= buf@.take(4));
    if !is_magic(buf, 0) {
        return Err(Error::new(Fault::BadMagic));
    }
    let v: u64 = get_le(buf, 4, 2);
    proof {
        lemma_le_value_bound(buf@.subrange(4, 6));
        lemma_byte_ranges();
    }
    let version: u16 = v as u16;
    if version > VERSION {
        return Err(Error::new(Fault::NewerVersion(version)));
    }
    Ok(version)
}

/// Fixed-size trailer, the last bytes of the archive.
#[derive(Debug, Clone, Copy)]
pub struct Footer {
    pub index_offset: u64,
    /// Length of the index as stored (zstd-compressed).
    pub index_clen: u64,
    /// Length of the serialized index before compression.
    pub index_rlen: u64,
    /// BLAKE3 of the *uncompressed* serialized index.
    pub index_hash: [u8; 32],
}

/// What a footer says.
#[verifier::ext_equal]
pub struct FooterView {
    pub offset: nat,
    pub clen: nat,
    pub rlen: nat,
    pub hash: Seq<u8>,
}

impl View for Footer {
    type V = FooterView;

    open spec fn view(&self) -> FooterView {
        FooterView {
            offset: self.index_offset as nat,
            clen: self.index_clen as nat,
            rlen: self.index_rlen as nat,
            hash: self.index_hash@,
        }
    }
}

/// A footer as it stands at the end of an archive.
pub open spec fn footer_bytes(f: FooterView) -> Seq<u8> {
    le_bytes(f.offset, 8) + le_bytes(f.clen, 8) + le_bytes(f.rlen, 8) + f.hash + le_bytes(
        VERSION as nat,
        2,
    ) + seq![0u8, 0u8] + magic()
}

/// What the last bytes of an archive say as a footer, if they are one.
pub open spec fn footer_of(tail: Seq<u8>) -> Option<FooterView> {
    if tail.len() != FOOTER_LEN || tail.subrange(60, 64) != magic() {
        None
    } else {
        Some(
            FooterView {
                offset: le_value(tail.subrange(0, 8)),
                clen: le_value(tail.subrange(8, 16)),
                rlen: le_value(tail.subrange(16, 24)),
                hash: tail.subrange(24, 56),
            },
        )
    }
}

/// The footer of an archive, or why there is none.
pub open spec fn footer_in(data: Seq<u8>) -> Result<FooterView, Fault> {
    if data.len() < HEADER_LEN + FOOTER_LEN {
        Err(Fault::TooShort)
    } else {
        match footer_of(window(data, data.len() - FOOTER_LEN, FOOTER_LEN as int)) {
            Some(f) => Ok(f),
            None => Err(Fault::NoFooter),
        }
    }
}

/// The footer that the bytes at the end of an archive hold, by what was handed over
/// for them, or why there is none.
pub open spec fn footer_answered(answer: Option<Seq<u8>>) -> Result<FooterView, Fault> {
    match answer {
        None => Err(Fault::Source),
        Some(tail) => match footer_of(tail) {
            Some(f) => Ok(f),
            None => Err(Fault::NoFooter),
        },
    }
}

/// What reading a footer came to.
pub open spec fn footer_outcome(r: Result<Footer, Error>) -> Result<FooterView, Fault> {
    match r {
        Ok(f) => Ok(f@),
        Err(e) => Err(e.fault),
    }
}

/// A footer is read back as it was written.
pub proof fn law_footer_round_trip(f: FooterView)
    requires
        f.offset <= u64::MAX,
        f.clen <= u64::MAX,
        f.rlen <= u64::MAX,
        f.hash.len() == 32,
    ensures
        footer_bytes(f).len() == FOOTER_LEN,
        footer_of(footer_bytes(f)) == Some(f),
{
    lemma_byte_ranges();
    law_le_round_trip(f.offset, 8);
    law_le_round_trip(f.clen, 8);
    law_le_round_trip(f.rlen, 8);
    lemma_le_bytes_len(VERSION as nat, 2);
    let b = footer_bytes(f);
    assert(b.subrange(60, 64) =~= magic());
    assert(b.subrange(0, 8) =~= le_bytes(f.offset, 8));
    assert(b.subrange(8, 16) =~= le_bytes(f.clen, 8));
    assert(b.subrange(16, 24) =~= le_bytes(f.rlen, 8));
    assert(b.subrange(24, 56) =~= f.hash);
}

/// The bytes of a footer: where the index lies, its length as stored and before that, each
/// in eight bytes; its digest; the version 1 in two bytes, two zeros, and the letters
/// `EMBR`.
pub proof fn law_footer_layout(f: FooterView)
    requires
        f.offset <= u64::MAX,
        f.clen <= u64::MAX,
        f.rlen <= u64::MAX,
        f.hash.len() == 32,
    ensures
        footer_bytes(f).len() == 64,
        le_value(footer_bytes(f).subrange(0, 8)) == f.offset,
        le_value(footer_bytes(f).subrange(8, 16)) == f.clen,
        le_value(footer_bytes(f).subrange(16, 24)) == f.rlen,
        footer_bytes(f).subrange(24, 56) == f.hash,
        footer_bytes(f).subrange(56, 64) == seq![1u8, 0, 0, 0, 69, 77, 66, 82],
{
    law_footer_round_trip(f);
    reveal_with_fuel(le_bytes, 3);
    assert(1nat % 256 == 1 && 1nat / 256 == 0 && 0nat % 256 == 0) by (nonlinear_arith);
    assert(le_bytes(1, 2) =~= seq![1u8, 0u8]);
    lemma_le_bytes_len(f.offset, 8);
    lemma_le_bytes_len(f.clen, 8);
    lemma_le_bytes_len(f.rlen, 8);
    assert(footer_bytes(f).subrange(56, 64) =~= seq![1u8, 0, 0, 0, 69, 77, 66, 82]);
}

/// An archive has a footer exactly if it has room for a header and a footer and ends with
/// the letters `EMBR`. The footer is its last 64 bytes.
pub proof fn law_footer_is_found(data: Seq<u8>)
    ensures
        data.len() < 80 ==> footer_in(data) == Err::<FooterView, Fault>(Fault::TooShort),
        data.len() >= 80 && !begins_with_letters(data.skip(data.len() - 4)) ==> footer_in(data)
            == Err::<FooterView, Fault>(Fault::NoFooter),
        data.len() >= 80 && begins_with_letters(data.skip(data.len() - 4)) ==> {
            &&& footer_in(data) matches Ok(f) && {
                &&& f.offset == le_value(data.subrange(data.len() - 64, data.len() - 56))
                &&& f.clen == le_value(data.subrange(data.len() - 56, data.len() - 48))
                &&& f.rlen == le_value(data.subrange(data.len() - 48, data.len() - 40))
                &&& f.hash == data.subrange(data.len() - 40, data.len() - 8)
            }
        },
{
    if data.len() >= 80 {
        let n = data.len();
        let tail = window(data, n - FOOTER_LEN, FOOTER_LEN as int);
        let end = data.skip(n - 4);
        assert(tail =~= data.subrange(n - 64, n as int));
        assert(tail.subrange(60, 64) =~= end);
        assert(tail.subrange(0, 8) =~= data.subrange(n - 64, n - 56));
        assert(tail.subrange(8, 16) =~= data.subrange(n - 56, n - 48));
        assert(tail.subrange(16, 24) =~= data.subrange(n - 48, n - 40));
        assert(tail.subrange(24, 56) =~= data.subrange(n - 40, n - 8));
        if begins_with_letters(end) {
            assert(end =~= magic());
        } else if end == magic() {
            assert(begins_with_letters(magic()));
        }
    }
}

impl Footer {
    /// Append the footer to `out`.
    pub fn write(&self, out: &mut Output) -> (r: Result<(), Error>)
        requires
            old(out).wf(),
        ensures
            final(out).wf(),
            final(out).handed_on() == old(out).handed_on(),
            match r {
                Ok(()) => final(out)@ == old(out)@ + footer_bytes(self@),
                Err(e) => {
                    &&& final(out)@ == old(out)@
                    &&& e.fault == Fault::TooLong
                    &&& old(out)@.len() + FOOTER_LEN > u64::MAX
                },
            },
    {
        proof {
            law_footer_round_trip(self@);
        }
        let mut buf = put_le(self.index_offset, 8);
        let mut clen = put_le(self.index_clen, 8);
        let mut rlen = put_le(self.index_rlen, 8);
        let mut version = put_le(VERSION as u64, 2);
        let mut mark = magic_bytes();
        buf.append(&mut clen);
        buf.append(&mut rlen);
        buf.extend_from_slice(&self.index_hash);
        buf.append(&mut version);
        buf.push(0);
        buf.push(0);
        buf.append(&mut mark);
        assert(buf@ =~= footer_bytes(self@));
        out.write(&buf)
    }

    /// What the last bytes of an archive say as a footer.
    pub fn parse(tail: &[u8]) -> (r: Result<Footer, Error>)
        ensures
            match r {
                Ok(f) => footer_of(tail@) == Some(f@),
                Err(e) => footer_of(tail@) is None && e.fault == Fault::NoFooter,
            },
    {
        if tail.len() as u64 != FOOTER_LEN || !is_magic(tail, 60) {
            return Err(Error::new(Fault::NoFooter));
        }
        let mut index_hash: [u8; 32] = [0u8;32];
        let mut i: usize = 0;
        while i < 32
            invariant
                i <= 32,
                tail@.len() == 64,
                index_hash@.len() == 32,
                forall|k: int| 0 <= k < i ==> index_hash@[k] == tail@[24 + k],
            decreases 32 - i,
        {
            index_hash[i] = tail[24 + i];
            i += 1;
        }
        assert(index_hash@ =~= tail@.subrange(24, 56));
        Ok(
            Footer {
                index_offset: get_le(tail, 0, 8),
                index_clen: get_le(tail, 8, 8),
                index_rlen: get_le(tail, 16, 8),
                index_hash,
            },
        )
    }

    /// Read the footer of an archive of `len` bytes. The one request is for the
    /// archive's last bytes; of an archive that is too short nothing is asked.
    pub fn read<S: Source>(len: u64, source: &mut S) -> (r: Result<Footer, Error>)
        ensures
            stays_true(*old(source), *final(source)),
            len < HEADER_LEN + FOOTER_LEN ==> {
                &&& *final(source) == *old(source)
                &&& r matches Err(e) && e.fault == Fault::TooShort
            },
            len >= HEADER_LEN + FOOTER_LEN ==> {
                &&& asked_for(
                    old(source).asked(),
                    final(source).asked(),
                    seq![((len - FOOTER_LEN) as u64, FOOTER_LEN)],
                )
                &&& footer_outcome(r) == footer_answered(final(source).asked().last().answer)
            },
            forall|data: Seq<u8>| #[trigger]
                old(source).holds(data) && data.len() == len ==> footer_outcome(r) == footer_in(
                    data,
                ),
    {
        if len < HEADER_LEN + FOOTER_LEN {
            proof {
                crate::stream::lemma_nothing_asked(*source);
            }
            return Err(Error::new(Fault::TooShort));
        }
        let at: u64 = len - FOOTER_LEN;
        let reply = source.fetch(at, FOOTER_LEN);
        proof {
            lemma_asked_once(
                *old(source),
                *source,
                Asked { offset: at, len: FOOTER_LEN, answer: answer_of(reply) },
            );
        }
        match reply {
            Ok(tail) => Footer::parse(&tail),
            Err(e) => Err(Error::io(Fault::Source, e)),
        }
    }
}

#[derive(Debug, Clone, Copy, PartialEq, Eq, Structural)]
pub struct BlockInfo {
    /// Absolute offset of the block's first byte in the archive.
    pub offset: u64,
    /// Bytes occupied on disk.
    pub clen: u64,
    /// Bytes after decoding.
    pub rlen: u64,
    /// [`crate::codec::Codec`] id.
    pub codec: u8,
}

#[derive(Debug, Clone, Copy, PartialEq, Eq, Structural)]
pub enum Kind {
    File,
    Dir,
    Symlink,
}

/// One contiguous run of a file's bytes inside one block. The writer gives a
/// file at most one; a reader accepts any number. Deduplicated files simply
/// share another entry's segments.
#[derive(Debug, Clone, Copy, PartialEq, Eq, Structural)]
pub struct Segment {
    pub block: u32,
    /// Offset within the *decoded* block.
    pub offset: u64,
    pub len: u64,
}

#[derive(Debug)]
pub struct Entry {
    /// Archive-relative path, always `/`-separated, never absolute and never
    /// containing `..`. Enforced on write and re-checked on extract.
    pub path: String,
    pub kind: Kind,
    /// Unix mode bits. Only the permission bits are applied on extract.
    pub mode: u32,
    /// Modification time, seconds since the Unix epoch.
    pub mtime: i64,
    pub mtime_nanos: u32,
    pub size: u64,
    /// BLAKE3 of the file's contents; `None` for directories and symlinks.
    /// Doubles as the dedup key and as an integrity check on extract.
    pub hash: Option<[u8; 32]>,
    pub link_target: Option<String>,
    pub segments: Vec<Segment>,
}

#[derive(Debug)]
pub struct Index {
    pub blocks: Vec<BlockInfo>,
    pub entries: Vec<Entry>,
    /// Free-form provenance, e.g. "embr 0.1.0". Not interpreted on read.
    pub created_by: String,
}

/// What an entry says.
#[verifier::ext_equal]
pub struct EntryView {
    pub path: Seq<char>,
    pub kind: Kind,
    pub mode: u32,
    pub mtime: i64,
    pub mtime_nanos: u32,
    pub size: u64,
    pub hash: Option<Seq<u8>>,
    pub link_target: Option<Seq<char>>,
    pub segments: Seq<Segment>,
}

/// What an index says.
#[verifier::ext_equal]
pub struct IndexView {
    pub blocks: Seq<BlockInfo>,
    pub entries: Seq<EntryView>,
    pub created_by: Seq<char>,
}

/// The bytes of an optional digest.
pub open spec fn hash_view(hash: Option<[u8; 32]>) -> Option<Seq<u8>> {
    match hash {
        Some(h) => Some(h@),
        None => None,
    }
}

/// The characters of an optional text.
pub open spec fn text_view(text: Option<String>) -> Option<Seq<char>> {
    match text {
        Some(t) => Some(t@),
        None => None,
    }
}

/// What each of some entries says.
pub open spec fn entry_views(entries: Seq<Entry>) -> Seq<EntryView> {
    entries.map_values(|e: Entry| e@)
}

impl View for Entry {
    type V = EntryView;

    open spec fn view(&self) -> EntryView {
        EntryView {
            path: self.path@,
            kind: self.kind,
            mode: self.mode,
            mtime: self.mtime,
            mtime_nanos: self.mtime_nanos,
            size: self.size,
            hash: hash_view(self.hash),
            link_target: text_view(self.link_target),
            segments: self.segments@,
        }
    }
}

impl View for Index {
    type V = IndexView;

    open spec fn view(&self) -> IndexView {
        IndexView {
            blocks: self.blocks@,
            entries: entry_views(self.entries@),
            created_by: self.created_by@,
        }
    }
}

/// A copy of some segments.
pub fn copy_segments(segments: &Vec<Segment>) -> (r: Vec<Segment>)
    ensures
        r@ == segments@,
{
    let mut r: Vec<Segment> = Vec::new();
    r.extend_from_slice(segments);
    assert(r@ =~= segments@);
    r
}

/// A copy of an optional text.
pub fn copy_text(text: &Option<String>) -> (r: Option<String>)
    ensures
        text_view(r) == text_view(*text),
{
    match text {
        Some(t) => Some(t.clone()),
        None => None,
    }
}

impl Clone for Entry {
    fn clone(&self) -> (r: Entry)
        ensures
            r@ == self@,
    {
        Entry {
            path: self.path.clone(),
            kind: self.kind,
            mode: self.mode,
            mtime: self.mtime,
            mtime_nanos: self.mtime_nanos,
            size: self.size,
            hash: self.hash,
            link_target: copy_text(&self.link_target),
            segments: copy_segments(&self.segments),
        }
    }
}

impl Default for Index {
    /// An index that lists nothing.
    fn default() -> (r: Index)
        ensures
            r@ == (IndexView {
                blocks: Seq::empty(),
                entries: Seq::empty(),
                created_by: Seq::empty(),
            }),
    {
        let r = Index { blocks: Vec::new(), entries: Vec::new(), created_by: String::new() };
        assert(r@.entries =~= Seq::<EntryView>::empty());
        r
    }
}

/// The level at which the index is compressed. The index is small relative to
/// the payload, and path lists compress extremely well.
pub const INDEX_LEVEL: i32 = 19;

/// `packed` is an index as it stands in an archive from `offset` on, and `f` is
/// the footer that describes it.
pub open spec fn is_stored_index(packed: Seq<u8>, f: FooterView, ix: IndexView, offset: nat) -> bool {
    &&& zstd_packed(packed, index_bytes(ix), INDEX_LEVEL)
    &&& packed.len() > 0
    &&& f == FooterView {
        offset,
        clen: packed.len(),
        rlen: index_bytes(ix).len(),
        hash: blake3_of(index_bytes(ix)),
    }
}

/// `after` is `before` with an index behind it, `f` is the footer that describes
/// the index, and by this footer the index is read back.
pub open spec fn index_appended(before: Seq<u8>, after: Seq<u8>, f: FooterView, ix: IndexView) -> bool {
    exists|packed: Seq<u8>|
        {
            &&& after == before + packed
            &&& #[trigger] is_stored_index(packed, f, ix, before.len())
            &&& index_read(f, packed) == Ok::<IndexView, Fault>(ix)
        }
}

/// An index that was written is not empty, and ends where the stream does.
pub proof fn law_index_has_bytes(before: Seq<u8>, after: Seq<u8>, f: FooterView, ix: IndexView)
    requires
        index_appended(before, after, f, ix),
    ensures
        f.clen > 0,
        f.offset == before.len(),
        f.offset + f.clen == after.len(),
{
}

/// An archive that ends before its index does is refused.
pub proof fn law_cut_off_index_is_refused(data: Seq<u8>, f: FooterView, n: int)
    requires
        f.clen > 0,
        0 <= n <= data.len(),
        n < f.offset + f.clen,
    ensures
        index_in(data.take(n), f) == Err::<IndexView, Fault>(Fault::IndexCut),
{
    assert(window(data.take(n), f.offset as int, f.clen as int).len() < f.clen);
}

/// The index that the stored bytes hold, given what the footer says of them, or
/// why it is refused.
pub open spec fn index_read(f: FooterView, packed: Seq<u8>) -> Result<IndexView, Fault> {
    if packed.len() != f.clen {
        Err(Fault::IndexCut)
    } else {
        match zstd_unpacked(packed) {
            None => Err(Fault::IndexFrame),
            Some(raw) => index_checked(f, raw),
        }
    }
}

/// The index that the decompressed bytes hold, given what the footer says of
/// them, or why it is refused.
pub open spec fn index_checked(f: FooterView, raw: Seq<u8>) -> Result<IndexView, Fault> {
    if raw.len() != f.rlen {
        Err(Fault::IndexLength)
    } else if blake3_of(raw) != f.hash {
        Err(Fault::IndexChecksum)
    } else {
        match index_value(raw) {
            None => Err(Fault::IndexLayout),
            Some(ix) => Ok(ix),
        }
    }
}

/// The index that the footer describes, by what was handed over for the place that
/// the footer names, or why it is refused.
pub open spec fn index_answered(f: FooterView, answer: Option<Seq<u8>>) -> Result<IndexView, Fault> {
    match answer {
        None => Err(Fault::IndexCut),
        Some(packed) => index_read(f, packed),
    }
}

/// What reading an index came to.
pub open spec fn index_outcome(r: Result<Index, Error>) -> Result<IndexView, Fault> {
    match r {
        Ok(ix) => Ok(ix@),
        Err(e) => Err(e.fault),
    }
}

/// The index of an archive whose footer is known, or why it is refused.
pub open spec fn index_in(data: Seq<u8>, f: FooterView) -> Result<IndexView, Fault> {
    index_read(f, window(data, f.offset as int, f.clen as int))
}

/// An index is accepted exactly if the place that the footer names lies in the archive,
/// what stands there unpacks, to the length and the digest that the footer says, and is an
/// index. It is then that index. What is wrong is said in this order.
pub proof fn law_index_is_checked(data: Seq<u8>, f: FooterView, raw: Seq<u8>)
    ensures
        f.clen > 0 && f.offset + f.clen > data.len() ==> index_in(data, f) == Err::<
            IndexView,
            Fault,
        >(Fault::IndexCut),
        f.offset + f.clen <= data.len() ==> ({
            let packed = data.subrange(f.offset as int, (f.offset + f.clen) as int);
            &&& zstd_unpacked(packed) is None ==> index_in(data, f) == Err::<IndexView, Fault>(
                Fault::IndexFrame,
            )
            &&& zstd_unpacked(packed) == Some(raw) ==> {
                &&& raw.len() != f.rlen ==> index_in(data, f) == Err::<IndexView, Fault>(
                    Fault::IndexLength,
                )
                &&& raw.len() == f.rlen && blake3_of(raw) != f.hash ==> index_in(data, f) == Err::<
                    IndexView,
                    Fault,
                >(Fault::IndexChecksum)
                &&& raw.len() == f.rlen && blake3_of(raw) == f.hash ==> index_in(data, f) == (
                match index_value(raw) {
                    Some(ix) => Ok::<IndexView, Fault>(ix),
                    None => Err::<IndexView, Fault>(Fault::IndexLayout),
                })
            }
        }),
{
    let packed = window(data, f.offset as int, f.clen as int);
    if f.offset + f.clen <= data.len() {
        assert(packed =~= data.subrange(f.offset as int, (f.offset + f.clen) as int));
    } else if f.clen > 0 {
        assert(packed.len() != f.clen);
    }
}

/// An index is stored as one frame that zstd made at level 19 of its bytes, behind what
/// was there, and the footer says where it lies, how long it is, how long its bytes were
/// before, and their digest.
pub proof fn law_stored_index(before: Seq<u8>, after: Seq<u8>, f: FooterView, ix: IndexView)
    requires
        index_appended(before, after, f, ix),
    ensures
        before.is_prefix_of(after),
        zstd_packed(after.skip(before.len() as int), index_bytes(ix), 19),
        f.offset == before.len(),
        f.clen == after.len() - before.len(),
        f.rlen == index_bytes(ix).len(),
        f.hash == blake3_of(index_bytes(ix)),
{
    let packed = choose|packed: Seq<u8>|
        {
            &&& after == before + packed
            &&& #[trigger] is_stored_index(packed, f, ix, before.len())
            &&& index_read(f, packed) == Ok::<IndexView, Fault>(ix)
        };
    assert(after.skip(before.len() as int) =~= packed);
    assert(after.subrange(0, before.len() as int) =~= before);
}

impl Index {
    /// Serialize, compress, and append to `out`, returning the footer that
    /// describes it.
    pub fn write(&self, out: &mut Output) -> (r: Result<Footer, Error>)
        requires
            old(out).wf(),
        ensures
            final(out).wf(),
            final(out).handed_on() == old(out).handed_on(),
            match r {
                Ok(f) => index_appended(old(out)@, final(out)@, f@, self@),
                Err(e) => {
                    &&& final(out)@ == old(out)@
                    &&& e.fault == Fault::TooLong
                    &&& exists|packed: Seq<u8>|
                        {
                            &&& #[trigger] zstd_packed(packed, index_bytes(self@), INDEX_LEVEL)
                            &&& old(out)@.len() + packed.len() > u64::MAX
                        }
                },
            },
    {
        let raw = match serialize_index(self) {
            Ok(raw) => raw,
            Err(e) => {
                return Err(e);
            },
        };
        let index_hash = digest(&raw);
        let index_offset = out.position();
        let packed = match zstd_encode_all(&raw, INDEX_LEVEL) {
            Ok(packed) => packed,
            Err(e) => {
                return Err(Error::io(Fault::Encoder, e));
            },
        };
        match out.write(&packed) {
            Ok(()) => {},
            Err(e) => {
                return Err(e);
            },
        }
        let f = Footer {
            index_offset,
            index_clen: packed.len() as u64,
            index_rlen: raw.len() as u64,
            index_hash,
        };
        proof {
            assert(f@.hash =~= blake3_of(index_bytes(self@)));
            assert(is_stored_index(packed@, f@, self@, old(out)@.len()));
            assert(index_checked(f@, raw@) == Ok::<IndexView, Fault>(self@));
            assert(index_appended(old(out)@, out@, f@, self@));
        }
        Ok(f)
    }

    /// Check the decompressed bytes of the index that `footer` describes, and
    /// read the index from them.
    pub fn check(footer: &Footer, raw: &[u8]) -> (r: Result<Index, Error>)
        ensures
            match r {
                Ok(ix) => index_checked(footer@, raw@) == Ok::<IndexView, Fault>(ix@),
                Err(e) => index_checked(footer@, raw@) == Err::<IndexView, Fault>(e.fault),
            },
    {
        if raw.len() as u64 != footer.index_rlen {
            return Err(Error::new(Fault::IndexLength));
        }
        let hash = digest(raw);
        if !same_digest(&hash, &footer.index_hash) {
            return Err(Error::new(Fault::IndexChecksum));
        }
        deserialize_index(raw)
    }

    /// Read and verify the index described by `footer` from its stored bytes.
    pub fn parse(footer: &Footer, packed: &[u8]) -> (r: Result<Index, Error>)
        ensures
            match r {
                Ok(ix) => index_read(footer@, packed@) == Ok::<IndexView, Fault>(ix@),
                Err(e) => index_read(footer@, packed@) == Err::<IndexView, Fault>(e.fault),
            },
    {
        if packed.len() as u64 != footer.index_clen {
            return Err(Error::new(Fault::IndexCut));
        }
        match zstd_decode_all(packed) {
            Ok(raw) => Index::check(footer, &raw),
            Err(e) => Err(Error::io(Fault::IndexFrame, e)),
        }
    }

    /// Read and verify the index described by `footer`. The one request is for the
    /// place that the footer names.
    pub fn read<S: Source>(source: &mut S, footer: &Footer) -> (r: Result<Index, Error>)
        ensures
            stays_true(*old(source), *final(source)),
            asked_for(
                old(source).asked(),
                final(source).asked(),
                seq![(footer.index_offset, footer.index_clen)],
            ),
            index_outcome(r) == index_answered(footer@, final(source).asked().last().answer),
            forall|data: Seq<u8>| #[trigger]
                old(source).holds(data) ==> index_outcome(r) == index_in(data, footer@),
    {
        let reply = source.fetch(footer.index_offset, footer.index_clen);
        proof {
            lemma_asked_once(
                *old(source),
                *source,
                Asked {
                    offset: footer.index_offset,
                    len: footer.index_clen,
                    answer: answer_of(reply),
                },
            );
        }
        match reply {
            Ok(packed) => Index::parse(footer, &packed),
            Err(e) => Err(Error::io(Fault::IndexCut, e)),
        }
    }
}

} // verus!
