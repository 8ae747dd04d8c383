//! Lane assignment.
//!
//! General-purpose compressors recover essentially nothing *within* data that
//! is already compressed, no matter how much CPU is spent. But grouping such
//! files into solid blocks still recovers a little, because they share
//! metadata *across* files. So the fast lane still compresses, at a cheap level
//! where that cross-file redundancy is nearly free to find.
//!
//! Keeping the lanes separate also stops media from diluting the dictionary of
//! the blocks holding genuinely compressible data.

use vstd::prelude::*;

use crate::order::Key;
use crate::text::{
    after_last, chars_of, find_last, last_index, law_after_last, law_last_index, law_trimming,
    lemma_text_antisymmetric, lemma_text_total, lemma_text_transitive, lower_text, lowered,
    no_later, same_chars, same_text, text_from, text_le, text_range, trim_start,
};

verus! {

#[derive(Debug, Clone, Copy, PartialEq, Eq, PartialOrd, Ord, Structural)]
pub enum Lane {
    /// Full-effort compression: the archive's chosen codec and level.
    Compress,
    /// Already-compressed payloads: still solid, but at a cheap level.
    Fast,
}

/// Extensions holding the output of a compression codec, where the entropy has
/// genuinely been squeezed out and more effort buys nothing. Lowercase, no dot.
///
/// The line here is **codec output, not container**. A JPEG *is* a compressed
/// stream. A `.zip` or a `.pkg` merely *holds* compressed streams, alongside
/// headers, tables, padding, and sometimes entries stored with no compression
/// at all, so containers get full effort. Formats compressed with a *strong*
/// codec (7z, rar, zst, xz) stay: LZMA-class compression leaves far less on the
/// table than DEFLATE-era ZIP does.
pub open spec fn is_precompressed(ext: Seq<char>) -> bool {
    ||| is_still_image(ext)
    ||| is_video(ext)
    ||| is_audio(ext)
    ||| is_strong_stream(ext)
    ||| is_web_font(ext)
}

/// Extensions of still images.
pub open spec fn is_still_image(ext: Seq<char>) -> bool {
    ||| ext == "jpg"@
    ||| ext == "jpeg"@
    ||| ext == "jpe"@
    ||| ext == "jxl"@
    ||| ext == "png"@
    ||| ext == "gif"@
    ||| ext == "webp"@
    ||| ext == "heic"@
    ||| ext == "heif"@
    ||| ext == "avif"@
    ||| ext == "jp2"@
}

fn still_image(ext: &str) -> (r: bool)
    ensures
        r == is_still_image(ext@),
{
    same_text(ext, "jpg")
        || same_text(ext, "jpeg")
        || same_text(ext, "jpe")
        || same_text(ext, "jxl")
        || same_text(ext, "png")
        || same_text(ext, "gif")
        || same_text(ext, "webp")
        || same_text(ext, "heic")
        || same_text(ext, "heif")
        || same_text(ext, "avif")
        || same_text(ext, "jp2")
}

/// Extensions of video.
pub open spec fn is_video(ext: Seq<char>) -> bool {
    ||| ext == "mp4"@
    ||| ext == "m4v"@
    ||| ext == "mov"@
    ||| ext == "mkv"@
    ||| ext == "webm"@
    ||| ext == "avi"@
    ||| ext == "wmv"@
    ||| ext == "flv"@
    ||| ext == "mpg"@
    ||| ext == "mpeg"@
    ||| ext == "m2ts"@
    ||| ext == "ts"@
    ||| ext == "3gp"@
}

fn video(ext: &str) -> (r: bool)
    ensures
        r == is_video(ext@),
{
    same_text(ext, "mp4")
        || same_text(ext, "m4v")
        || same_text(ext, "mov")
        || same_text(ext, "mkv")
        || same_text(ext, "webm")
        || same_text(ext, "avi")
        || same_text(ext, "wmv")
        || same_text(ext, "flv")
        || same_text(ext, "mpg")
        || same_text(ext, "mpeg")
        || same_text(ext, "m2ts")
        || same_text(ext, "ts")
        || same_text(ext, "3gp")
}

/// Extensions of audio.
pub open spec fn is_audio(ext: Seq<char>) -> bool {
    ||| ext == "mp3"@
    ||| ext == "aac"@
    ||| ext == "m4a"@
    ||| ext == "ogg"@
    ||| ext == "oga"@
    ||| ext == "opus"@
    ||| ext == "flac"@
    ||| ext == "wma"@
    ||| ext == "ape"@
}

fn audio(ext: &str) -> (r: bool)
    ensures
        r == is_audio(ext@),
{
    same_text(ext, "mp3")
        || same_text(ext, "aac")
        || same_text(ext, "m4a")
        || same_text(ext, "ogg")
        || same_text(ext, "oga")
        || same_text(ext, "opus")
        || same_text(ext, "flac")
        || same_text(ext, "wma")
        || same_text(ext, "ape")
}

/// Extensions of raw compressed streams, and containers using a strong codec.
pub open spec fn is_strong_stream(ext: Seq<char>) -> bool {
    ||| ext == "gz"@
    ||| ext == "tgz"@
    ||| ext == "bz2"@
    ||| ext == "xz"@
    ||| ext == "zst"@
    ||| ext == "lz4"@
    ||| ext == "lzma"@
    ||| ext == "br"@
    ||| ext == "7z"@
    ||| ext == "rar"@
    ||| ext == "embr"@
}

fn strong_stream(ext: &str) -> (r: bool)
    ensures
        r == is_strong_stream(ext@),
{
    same_text(ext, "gz")
        || same_text(ext, "tgz")
        || same_text(ext, "bz2")
        || same_text(ext, "xz")
        || same_text(ext, "zst")
        || same_text(ext, "lz4")
        || same_text(ext, "lzma")
        || same_text(ext, "br")
        || same_text(ext, "7z")
        || same_text(ext, "rar")
        || same_text(ext, "embr")
}

/// Extensions of compressed web fonts.
pub open spec fn is_web_font(ext: Seq<char>) -> bool {
    ||| ext == "woff"@
    ||| ext == "woff2"@
}

fn web_font(ext: &str) -> (r: bool)
    ensures
        r == is_web_font(ext@),
{
    same_text(ext, "woff")
        || same_text(ext, "woff2")
}

/// Whether an extension means already-compressed contents.
pub fn precompressed(ext: &str) -> (r: bool)
    ensures
        r == is_precompressed(ext@),
{
    still_image(ext) || video(ext) || audio(ext) || strong_stream(ext) || web_font(ext)
}

/// The lowercased extension of a path, if it has one: what follows the last
/// dot of the file name. Dots that the name starts with mean a hidden file, not
/// an extension.
pub open spec fn path_extension(path: Seq<char>) -> Option<Seq<char>> {
    let name = trim_start(after_last(path, '/'), '.');
    let dot = last_index(name, '.');
    if dot < 0 || dot + 1 == name.len() {
        None
    } else {
        Some(lowered(name.skip(dot + 1)))
    }
}

/// The lane that a path belongs to.
pub open spec fn path_lane(path: Seq<char>) -> Lane {
    match path_extension(path) {
        Some(ext) if is_precompressed(ext) => Lane::Fast,
        _ => Lane::Compress,
    }
}

/// Everything before the last slash; empty if there is none.
pub open spec fn path_dir(path: Seq<char>) -> Seq<char> {
    let slash = last_index(path, '/');
    if slash < 0 {
        Seq::empty()
    } else {
        path.take(slash)
    }
}

/// The extension of a path for sorting: empty if it has none.
pub open spec fn sort_extension(path: Seq<char>) -> Seq<char> {
    match path_extension(path) {
        Some(ext) => ext,
        None => Seq::empty(),
    }
}

/// The extensions of already-compressed contents: still images, video, audio, compressed
/// streams and strong containers, web fonts.
pub open spec fn precompressed_extensions() -> Seq<Seq<char>> {
    seq![
        "jpg"@, "jpeg"@, "jpe"@, "jxl"@, "png"@, "gif"@, "webp"@,
        "heic"@, "heif"@, "avif"@, "jp2"@,
        "mp4"@, "m4v"@, "mov"@, "mkv"@, "webm"@, "avi"@, "wmv"@,
        "flv"@, "mpg"@, "mpeg"@, "m2ts"@, "ts"@, "3gp"@,
        "mp3"@, "aac"@, "m4a"@, "ogg"@, "oga"@, "opus"@, "flac"@,
        "wma"@, "ape"@,
        "gz"@, "tgz"@, "bz2"@, "xz"@, "zst"@, "lz4"@, "lzma"@,
        "br"@, "7z"@, "rar"@, "embr"@,
        "woff"@, "woff2"@,
    ]
}

/// The extensions of already-compressed contents are these and no others.
pub proof fn law_precompressed_extensions(ext: Seq<char>)
    ensures
        is_precompressed(ext) <==> precompressed_extensions().contains(ext),
        precompressed_extensions().len() == 46,
        is_precompressed("jpg"@),
        is_precompressed("jpeg"@),
        is_precompressed("jpe"@),
        is_precompressed("jxl"@),
        is_precompressed("png"@),
        is_precompressed("gif"@),
        is_precompressed("webp"@),
        is_precompressed("heic"@),
        is_precompressed("heif"@),
        is_precompressed("avif"@),
        is_precompressed("jp2"@),
        is_precompressed("mp4"@),
        is_precompressed("m4v"@),
        is_precompressed("mov"@),
        is_precompressed("mkv"@),
        is_precompressed("webm"@),
        is_precompressed("avi"@),
        is_precompressed("wmv"@),
        is_precompressed("flv"@),
        is_precompressed("mpg"@),
        is_precompressed("mpeg"@),
        is_precompressed("m2ts"@),
        is_precompressed("ts"@),
        is_precompressed("3gp"@),
        is_precompressed("mp3"@),
        is_precompressed("aac"@),
        is_precompressed("m4a"@),
        is_precompressed("ogg"@),
        is_precompressed("oga"@),
        is_precompressed("opus"@),
        is_precompressed("flac"@),
        is_precompressed("wma"@),
        is_precompressed("ape"@),
        is_precompressed("gz"@),
        is_precompressed("tgz"@),
        is_precompressed("bz2"@),
        is_precompressed("xz"@),
        is_precompressed("zst"@),
        is_precompressed("lz4"@),
        is_precompressed("lzma"@),
        is_precompressed("br"@),
        is_precompressed("7z"@),
        is_precompressed("rar"@),
        is_precompressed("embr"@),
        is_precompressed("woff"@),
        is_precompressed("woff2"@),
{
    let all = precompressed_extensions();
    assert(all[0] == "jpg"@);
    assert(all[1] == "jpeg"@);
    assert(all[2] == "jpe"@);
    assert(all[3] == "jxl"@);
    assert(all[4] == "png"@);
    assert(all[5] == "gif"@);
    assert(all[6] == "webp"@);
    assert(all[7] == "heic"@);
    assert(all[8] == "heif"@);
    assert(all[9] == "avif"@);
    assert(all[10] == "jp2"@);
    assert(all[11] == "mp4"@);
    assert(all[12] == "m4v"@);
    assert(all[13] == "mov"@);
    assert(all[14] == "mkv"@);
    assert(all[15] == "webm"@);
    assert(all[16] == "avi"@);
    assert(all[17] == "wmv"@);
    assert(all[18] == "flv"@);
    assert(all[19] == "mpg"@);
    assert(all[20] == "mpeg"@);
    assert(all[21] == "m2ts"@);
    assert(all[22] == "ts"@);
    assert(all[23] == "3gp"@);
    assert(all[24] == "mp3"@);
    assert(all[25] == "aac"@);
    assert(all[26] == "m4a"@);
    assert(all[27] == "ogg"@);
    assert(all[28] == "oga"@);
    assert(all[29] == "opus"@);
    assert(all[30] == "flac"@);
    assert(all[31] == "wma"@);
    assert(all[32] == "ape"@);
    assert(all[33] == "gz"@);
    assert(all[34] == "tgz"@);
    assert(all[35] == "bz2"@);
    assert(all[36] == "xz"@);
    assert(all[37] == "zst"@);
    assert(all[38] == "lz4"@);
    assert(all[39] == "lzma"@);
    assert(all[40] == "br"@);
    assert(all[41] == "7z"@);
    assert(all[42] == "rar"@);
    assert(all[43] == "embr"@);
    assert(all[44] == "woff"@);
    assert(all[45] == "woff2"@);
    if is_precompressed(ext) {
        assert(exists|i: int| 0 <= i < all.len() && #[trigger] all[i] == ext);
    }
}

/// The extension of a path is what follows the last dot of the name, in small letters,
/// wherever the file lies. The name must have something other than dots before that dot.
/// The path belongs to the fast lane if that is an extension of already-compressed
/// contents, and else to the full-effort lane.
pub proof fn law_lane_by_extension(at: Seq<char>, stem: Seq<char>, ext: Seq<char>, i: int)
    requires
        at.len() == 0 || at.last() == '/',
        !stem.contains('/'),
        0 <= i < stem.len(),
        stem[i] != '.',
        ext.len() > 0,
        !ext.contains('/'),
        !ext.contains('.'),
    ensures
        path_extension(at + stem + seq!['.'] + ext) == Some(lowered(ext)),
        sort_extension(at + stem + seq!['.'] + ext) == lowered(ext),
        precompressed_extensions().contains(lowered(ext)) ==> path_lane(
            at + stem + seq!['.'] + ext,
        ) == Lane::Fast,
        !precompressed_extensions().contains(lowered(ext)) ==> path_lane(
            at + stem + seq!['.'] + ext,
        ) == Lane::Compress,
{
    let path = at + stem + seq!['.'] + ext;
    let name = stem.push('.') + ext;
    assert(!name.contains('/')) by {
        if name.contains('/') {
            let k = choose|k: int| 0 <= k < name.len() && name[k] == '/';
            if k < stem.len() {
                assert(stem.contains(stem[k]));
            } else if k > stem.len() {
                assert(ext.contains(ext[k - stem.len() - 1]));
            }
        }
    }
    lemma_name_of(at, name);
    assert(at + name =~= path);
    law_trimming(name, '.');
    let trimmed = trim_start(name, '.');
    let n = name.len() - trimmed.len();
    assert(name[i] != '.');
    assert(trimmed =~= stem.skip(n).push('.') + ext);
    law_after_last(stem.skip(n), ext, '.');
    assert(trimmed.skip(last_index(trimmed, '.') + 1) =~= ext);
    law_precompressed_extensions(lowered(ext));
}

/// A name without a dot has no extension, and neither has one whose dots all stand at
/// its start, or one that ends with a dot. Such a file belongs to the full-effort lane.
pub proof fn law_lane_without_extension(at: Seq<char>, dots: Seq<char>, base: Seq<char>)
    requires
        at.len() == 0 || at.last() == '/',
        !base.contains('/'),
        forall|i: int| 0 <= i < dots.len() ==> #[trigger] dots[i] == '.',
        !base.contains('.') || base.last() == '.',
    ensures
        path_extension(at + dots + base) is None,
        sort_extension(at + dots + base).len() == 0,
        path_lane(at + dots + base) == Lane::Compress,
{
    let path = at + dots + base;
    let name = dots + base;
    assert(!name.contains('/')) by {
        if name.contains('/') {
            let k = choose|k: int| 0 <= k < name.len() && name[k] == '/';
            if k < dots.len() {
                assert(dots[k] == '.');
            } else {
                assert(base.contains(base[k - dots.len()]));
            }
        }
    }
    lemma_name_of(at, name);
    assert(at + name =~= path);
    law_trimming(name, '.');
    let trimmed = trim_start(name, '.');
    let n = name.len() - trimmed.len();
    law_last_index(trimmed, '.');
    let dot = last_index(trimmed, '.');
    if base.contains('.') {
        assert(trimmed.len() > 0 ==> trimmed[trimmed.len() - 1] == base.last());
    } else if dot >= 0 {
        assert(trimmed[dot] == name[n + dot]);
        if n + dot < dots.len() {
            assert(dots[n] == '.');
            assert(trimmed[0] == name[n]);
        } else {
            assert(base.contains(base[n + dot - dots.len()]));
        }
    }
}

/// What follows the last slash is the name.
proof fn lemma_name_of(at: Seq<char>, name: Seq<char>)
    requires
        at.len() == 0 || at.last() == '/',
        !name.contains('/'),
    ensures
        after_last(at + name, '/') == name,
{
    if at.len() == 0 {
        law_after_last(at, name, '/');
        assert(at + name =~= name);
    } else {
        law_after_last(at.drop_last(), name, '/');
        assert(at.drop_last().push('/') =~= at);
    }
}

/// The lane of a path does not depend on the case of its letters.
pub proof fn law_lane_ignores_case(at: Seq<char>, stem: Seq<char>, a: Seq<char>, b: Seq<char>, i: int)
    requires
        at.len() == 0 || at.last() == '/',
        !stem.contains('/'),
        0 <= i < stem.len(),
        stem[i] != '.',
        a.len() > 0,
        b.len() > 0,
        !a.contains('/') && !a.contains('.'),
        !b.contains('/') && !b.contains('.'),
        lowered(a) == lowered(b),
    ensures
        path_lane(at + stem + seq!['.'] + a) == path_lane(at + stem + seq!['.'] + b),
{
    law_lane_by_extension(at, stem, a, i);
    law_lane_by_extension(at, stem, b, i);
}

/// The directory and the name of a sort key are the path's own: with a slash between
/// them they are the path. A path without a slash is a name in no directory.
pub proof fn law_directory_and_name(dir: Seq<char>, name: Seq<char>)
    requires
        !name.contains('/'),
    ensures
        path_dir(dir + seq!['/'] + name) == dir,
        after_last(dir + seq!['/'] + name, '/') == name,
        path_dir(name).len() == 0,
        after_last(name, '/') == name,
{
    law_after_last(dir, name, '/');
    assert(dir.push('/') + name =~= dir + seq!['/'] + name);
    assert((dir.push('/') + name).take(dir.len() as int) =~= dir);
}

/// Decide which lane a file belongs to, based on its name.
///
/// Extension matching is a heuristic, not a guarantee. It is cheap and right
/// often enough to be worth it.
pub fn lane_for(path: &str) -> (lane: Lane)
    ensures
        lane == path_lane(path@),
{
    match extension_of(path) {
        Some(ext) => {
            if precompressed(&ext) {
                Lane::Fast
            } else {
                Lane::Compress
            }
        },
        None => Lane::Compress,
    }
}

/// Lowercased extension of a path, if it has one.
pub fn extension_of(path: &str) -> (r: Option<String>)
    ensures
        match r {
            Some(ext) => path_extension(path@) == Some(ext@),
            None => path_extension(path@) is None,
        },
{
    let chars = chars_of(path);
    let mut start: usize = match find_last(&chars, '/') {
        Some(i) => i + 1,
        None => 0,
    };
    assert(chars@.skip(start as int) == after_last(path@, '/'));
    while start < chars.len() && chars[start] == '.'
        invariant
            start <= chars@.len(),
            trim_start(after_last(path@, '/'), '.') == trim_start(chars@.skip(start as int), '.'),
        decreases chars@.len() - start,
    {
        assert(chars@.skip(start as int).drop_first() == chars@.skip(start + 1));
        start += 1;
    }
    let ghost name = trim_start(after_last(path@, '/'), '.');
    assert(name == chars@.skip(start as int));
    let mut body: Vec<char> = Vec::new();
    let mut i: usize = start;
    while i < chars.len()
        invariant
            start <= i <= chars@.len(),
            body@ == chars@.subrange(start as int, i as int),
        decreases chars@.len() - i,
    {
        body.push(chars[i]);
        i += 1;
    }
    assert(body@ =~= name);
    match find_last(&body, '.') {
        None => None,
        Some(dot) => {
            if dot + 1 == body.len() {
                None
            } else {
                let folded = lower_text(&body);
                let ext = text_from(&folded, dot + 1);
                assert(ext@ =~= lowered(body@.skip(dot + 1)));
                Some(ext)
            }
        },
    }
}

/// Sort key controlling the order files are laid down inside the archive.
///
/// Grouping by lane first keeps the compressed blocks free of media. Within a
/// lane, grouping by extension puts files that share a vocabulary next to each
/// other, which is what makes a solid block compress far better than the same
/// files in directory order. Directory then filename break ties so related
/// files stay adjacent.
pub fn sort_key(path: &str) -> (key: (Lane, String, String, String))
    ensures
        key.0 == path_lane(path@),
        key.1@ == sort_extension(path@),
        key.2@ == path_dir(path@),
        key.3@ == after_last(path@, '/'),
{
    let lane = lane_for(path);
    let ext = match extension_of(path) {
        Some(ext) => ext,
        None => String::new(),
    };
    let chars = chars_of(path);
    let (dir, name) = match find_last(&chars, '/') {
        Some(i) => (text_range(&chars, 0, i), text_from(&chars, i + 1)),
        None => (String::new(), text_from(&chars, 0)),
    };
    (lane, ext, dir, name)
}

/// The sort key of a path, ready to be compared.
pub struct PackKey {
    pub lane: Lane,
    pub ext: Vec<char>,
    pub dir: Vec<char>,
    pub name: Vec<char>,
}

/// Lexicographic order on (lane, extension, directory, name).
pub open spec fn pack_le(a: Seq<char>, b: Seq<char>) -> bool {
    if path_lane(a) != path_lane(b) {
        path_lane(a) == Lane::Compress
    } else if sort_extension(a) != sort_extension(b) {
        text_le(sort_extension(a), sort_extension(b))
    } else if path_dir(a) != path_dir(b) {
        text_le(path_dir(a), path_dir(b))
    } else {
        text_le(after_last(a, '/'), after_last(b, '/'))
    }
}

impl Key for PackKey {
    open spec fn leq(&self, other: &Self) -> bool {
        if self.lane != other.lane {
            self.lane == Lane::Compress
        } else if self.ext@ != other.ext@ {
            text_le(self.ext@, other.ext@)
        } else if self.dir@ != other.dir@ {
            text_le(self.dir@, other.dir@)
        } else {
            text_le(self.name@, other.name@)
        }
    }

    proof fn total(a: &Self, b: &Self) {
        lemma_text_total(a.ext@, b.ext@);
        lemma_text_total(a.dir@, b.dir@);
        lemma_text_total(a.name@, b.name@);
    }

    proof fn transitive(a: &Self, b: &Self, c: &Self) {
        if a.lane == b.lane && b.lane == c.lane {
            if text_le(a.ext@, b.ext@) && text_le(b.ext@, c.ext@) {
                lemma_text_transitive(a.ext@, b.ext@, c.ext@);
                if a.ext@ == c.ext@ {
                    lemma_text_antisymmetric(a.ext@, b.ext@);
                }
            }
            if text_le(a.dir@, b.dir@) && text_le(b.dir@, c.dir@) {
                lemma_text_transitive(a.dir@, b.dir@, c.dir@);
                if a.dir@ == c.dir@ {
                    lemma_text_antisymmetric(a.dir@, b.dir@);
                }
            }
            if text_le(a.name@, b.name@) && text_le(b.name@, c.name@) {
                lemma_text_transitive(a.name@, b.name@, c.name@);
            }
        }
    }

    fn no_greater(&self, other: &Self) -> (r: bool) {
        if self.lane != other.lane {
            self.lane == Lane::Compress
        } else if !same_chars(&self.ext, &other.ext) {
            no_later(&self.ext, &other.ext)
        } else if !same_chars(&self.dir, &other.dir) {
            no_later(&self.dir, &other.dir)
        } else {
            no_later(&self.name, &other.name)
        }
    }
}

/// Files are packed by lane first, the full-effort lane before the fast one; within a
/// lane by extension; within an extension by directory; within a directory by name.
pub proof fn law_pack_order(a: Seq<char>, b: Seq<char>)
    ensures
        path_lane(a) == Lane::Compress && path_lane(b) == Lane::Fast ==> pack_le(a, b) && !pack_le(
            b,
            a,
        ),
        path_lane(a) == path_lane(b) && pack_le(a, b) ==> text_le(
            sort_extension(a),
            sort_extension(b),
        ),
        path_lane(a) == path_lane(b) && sort_extension(a) == sort_extension(b) && pack_le(a, b)
            ==> text_le(path_dir(a), path_dir(b)),
        path_lane(a) == path_lane(b) && sort_extension(a) == sort_extension(b) && path_dir(a)
            == path_dir(b) ==> (pack_le(a, b) <==> text_le(after_last(a, '/'), after_last(b, '/'))),
        pack_le(a, b) || pack_le(b, a),
{
    lemma_text_total(sort_extension(a), sort_extension(b));
    lemma_text_total(path_dir(a), path_dir(b));
    lemma_text_total(after_last(a, '/'), after_last(b, '/'));
}

/// `key` is the sort key of a path.
pub open spec fn is_key_of(key: PackKey, path: Seq<char>) -> bool {
    &&& key.lane == path_lane(path)
    &&& key.ext@ == sort_extension(path)
    &&& key.dir@ == path_dir(path)
    &&& key.name@ == after_last(path, '/')
}

impl PackKey {
    /// The key of a path.
    pub fn new(path: &str) -> (key: PackKey)
        ensures
            is_key_of(key, path@),
    {
        let (lane, ext, dir, name) = sort_key(path);
        PackKey { lane, ext: chars_of(&ext), dir: chars_of(&dir), name: chars_of(&name) }
    }
}

} // verus!
