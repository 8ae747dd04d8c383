//! Encoders that take their input piece by piece and give their output as it
//! comes, so that neither has to be held in memory as a whole.

use vstd::prelude::*;

use crate::codec::{
    is_block_of, is_refused, raw_decoded, window_log_for, window_log_of, xz_decoded, xz_preset,
    xz_stream, zstd_decoded, zstd_frame, zstd_refuses, Codec, MAX_WINDOW_LOG,
};
use crate::error::{Error, Fault};

verus! {

/// `zstd::stream::raw::Encoder`.
#[verifier::external_type_specification]
#[verifier::external_body]
pub struct ExZstdEncoder<'a>(zstd::stream::raw::Encoder<'a>);

/// `zstd::stream::zio::Writer`.
#[verifier::external_type_specification]
#[verifier::external_body]
#[verifier::reject_recursive_types(W)]
#[verifier::reject_recursive_types(D)]
pub struct ExZstdWriter<W, D>(zstd::stream::zio::Writer<W, D>);

/// `xz2::stream::Stream`.
#[verifier::external_type_specification]
#[verifier::external_body]
pub struct ExXzStream(xz2::stream::Stream);

/// A zstd encoder that writes to memory.
pub type ZstdWriter = zstd::stream::zio::Writer<Vec<u8>, zstd::stream::raw::Encoder<'static>>;

/// The most bytes that an xz stream is ever asked to hold; the format's own limit
/// is a little below twice that.
pub const XZ_MAX: u64 = 0x4000_0000_0000_0000;

/// What a zstd encoder has been fed and what it has made of it so far, how it was
/// set up, and whether it takes more.
pub struct ZstdCoding {
    pub fed: Seq<u8>,
    pub made: Seq<u8>,
    pub level: i32,
    pub window_log: u32,
    pub workers: u32,
    pub open: bool,
}

/// What an xz encoder has been fed and what it has made of it so far, its preset,
/// whether it takes more, and whether the stream has ended.
pub struct XzCoding {
    pub fed: Seq<u8>,
    pub made: Seq<u8>,
    pub preset: u32,
    pub open: bool,
    pub ended: bool,
}

/// The state of a zstd encoder: what went in, what came out, and its settings.
pub uninterp spec fn zstd_coding(
    w: zstd::stream::zio::Writer<Vec<u8>, zstd::stream::raw::Encoder<'static>>,
) -> ZstdCoding;

/// The state of an xz encoder: what went in, what came out, and its settings.
pub uninterp spec fn xz_coding(s: xz2::stream::Stream) -> XzCoding;

/// `zstd::stream::raw::Encoder::new` behind `zstd::stream::zio::Writer::new`: an
/// encoder that has been fed nothing and has made nothing. Where it fails, it is one
/// that may fail with these settings; on which machines it does is left unsaid.
#[verifier::external_body]
fn zstd_begin(level: i32, window_log: u32, workers: u32) -> (r: Result<ZstdWriter, std::io::Error>)
    requires
        10 <= window_log <= 30,
    ensures
        r matches Ok(w) ==> zstd_coding(w) == (ZstdCoding {
            fed: Seq::empty(),
            made: Seq::empty(),
            level,
            window_log,
            workers,
            open: true,
        }),
        r is Err ==> zstd_refuses(Seq::empty(), level, window_log, workers),
{
    let mut enc = zstd::stream::raw::Encoder::new(level)?;
    enc.set_parameter(zstd::zstd_safe::CParameter::WindowLog(window_log))?;
    enc.set_parameter(zstd::zstd_safe::CParameter::NbWorkers(workers))?;
    Ok(zstd::stream::zio::Writer::new(Vec::new(), enc))
}

/// `write_all` of `zstd::stream::zio::Writer`: the encoder takes in all of `input`;
/// what it has made by then is handed over. Where it fails, it is one that may fail
/// on what it was fed.
#[verifier::external_body]
fn zstd_feed(w: &mut ZstdWriter, input: &[u8]) -> (r: Result<Vec<u8>, std::io::Error>)
    requires
        zstd_coding(*old(w)).open,
    ensures
        r matches Ok(out) ==> zstd_coding(*final(w)) == (ZstdCoding {
            fed: zstd_coding(*old(w)).fed + input@,
            made: zstd_coding(*old(w)).made + out@,
            ..zstd_coding(*old(w))
        }),
        r is Err ==> zstd_refuses(
            zstd_coding(*old(w)).fed + input@,
            zstd_coding(*old(w)).level,
            zstd_coding(*old(w)).window_log,
            zstd_coding(*old(w)).workers,
        ),
{
    std::io::Write::write_all(w, input)?;
    Ok(std::mem::take(w.writer_mut()))
}

/// `finish` of `zstd::stream::zio::Writer`: the rest of the frame is handed over.
/// All that the encoder has made is then one complete frame of all that it was fed,
/// which the decoder turns back into that wherever it allows the frame's window.
#[verifier::external_body]
fn zstd_close(w: &mut ZstdWriter) -> (r: Result<Vec<u8>, std::io::Error>)
    requires
        zstd_coding(*old(w)).open,
    ensures
        r matches Ok(out) ==> zstd_coding(*final(w)) == (ZstdCoding {
            made: zstd_coding(*old(w)).made + out@,
            open: false,
            ..zstd_coding(*old(w))
        }),
        r is Ok ==> zstd_frame(
            zstd_coding(*final(w)).made,
            zstd_coding(*old(w)).fed,
            zstd_coding(*old(w)).level,
            zstd_coding(*old(w)).window_log,
            zstd_coding(*old(w)).workers,
        ),
        r is Ok ==> forall|m: u32|
            zstd_coding(*old(w)).window_log <= m <= 30 ==> #[trigger] zstd_decoded(
                zstd_coding(*final(w)).made,
                m,
            ) == Some(zstd_coding(*old(w)).fed),
        r is Err ==> zstd_refuses(
            zstd_coding(*old(w)).fed,
            zstd_coding(*old(w)).level,
            zstd_coding(*old(w)).window_log,
            zstd_coding(*old(w)).workers,
        ),
{
    w.finish()?;
    Ok(std::mem::take(w.writer_mut()))
}

/// `xz2::stream::Stream::new_easy_encoder`: an encoder that has been fed nothing and
/// has made nothing. Given the memory that it asks for it does not fail on a preset
/// up to 9.
#[verifier::external_body]
fn xz_begin(preset: u32) -> (r: Result<xz2::stream::Stream, std::io::Error>)
    requires
        preset <= 9,
    ensures
        r is Ok,
        r matches Ok(s) ==> xz_coding(s) == (XzCoding {
            fed: Seq::empty(),
            made: Seq::empty(),
            preset,
            open: true,
            ended: false,
        }),
{
    Ok(xz2::stream::Stream::new_easy_encoder(preset, xz2::stream::Check::Crc64)?)
}

/// `xz2::stream::Stream::process_vec` with `Action::Run`: the encoder takes in some of
/// `input` from its start, and hands over what it has made by then. It takes in all of
/// it, or hands something over. Given the memory that it asks for it does not fail
/// below the format's limit.
#[verifier::external_body]
fn xz_feed(s: &mut xz2::stream::Stream, input: &[u8]) -> (r: Result<Vec<u8>, std::io::Error>)
    requires
        xz_coding(*old(s)).open,
        xz_coding(*old(s)).fed.len() + input@.len() <= XZ_MAX,
    ensures
        r is Ok,
        r matches Ok(out) ==> xz_coding(*final(s)) == (XzCoding {
            fed: xz_coding(*final(s)).fed,
            made: xz_coding(*old(s)).made + out@,
            ..xz_coding(*old(s))
        }),
        r is Ok ==> xz_coding(*old(s)).fed.is_prefix_of(xz_coding(*final(s)).fed),
        r is Ok ==> xz_coding(*final(s)).fed.is_prefix_of(xz_coding(*old(s)).fed + input@),
        r matches Ok(out) ==> out@.len() > 0 || xz_coding(*final(s)).fed == xz_coding(*old(s)).fed
            + input@,
        r is Ok ==> xz_coding(*final(s)).made.len() <= u64::MAX,
{
    let mut out = Vec::with_capacity(32 * 1024);
    s.process_vec(input, &mut out, xz2::stream::Action::Run)?;
    Ok(out)
}

/// `xz2::stream::Stream::total_in`: how many bytes the encoder has taken in.
#[verifier::external_body]
fn xz_taken(s: &xz2::stream::Stream) -> (n: u64)
    requires
        xz_coding(*s).fed.len() <= XZ_MAX,
    ensures
        n == xz_coding(*s).fed.len(),
{
    s.total_in()
}

/// `xz2::stream::Stream::process_vec` with `Action::Finish`: some more of the stream is
/// handed over, and whether that was the last of it. If it was, all that the encoder
/// has made is one complete stream of all that it was fed, which the decoder turns back
/// into that. If it was not, it is not empty. Given the memory that it asks for the
/// encoder does not fail.
#[verifier::external_body]
fn xz_close(s: &mut xz2::stream::Stream) -> (r: Result<(Vec<u8>, bool), std::io::Error>)
    requires
        !xz_coding(*old(s)).ended,
        xz_coding(*old(s)).fed.len() <= XZ_MAX,
    ensures
        r is Ok,
        r matches Ok((out, ended)) ==> xz_coding(*final(s)) == (XzCoding {
            made: xz_coding(*old(s)).made + out@,
            open: false,
            ended,
            ..xz_coding(*old(s))
        }),
        r matches Ok((out, ended)) ==> ended || out@.len() > 0,
        r matches Ok((out, ended)) ==> (ended ==> xz_stream(
            xz_coding(*final(s)).made,
            xz_coding(*old(s)).fed,
            xz_coding(*old(s)).preset,
        ) && xz_decoded(xz_coding(*final(s)).made) == Some(xz_coding(*old(s)).fed)),
        r is Ok ==> xz_coding(*final(s)).made.len() <= u64::MAX,
{
    let mut out = Vec::with_capacity(32 * 1024);
    let status = s.process_vec(&[], &mut out, xz2::stream::Action::Finish)?;
    Ok((out, matches!(status, xz2::stream::Status::StreamEnd)))
}

/// An encoder for one block.
pub enum BlockCoder {
    Store { fed: Ghost<Seq<u8>>, open: Ghost<bool> },
    Zstd { w: ZstdWriter },
    Xz { s: xz2::stream::Stream },
}

impl BlockCoder {
    /// What it has been fed.
    pub open spec fn fed(self) -> Seq<u8> {
        match self {
            BlockCoder::Store { fed, .. } => fed@,
            BlockCoder::Zstd { w } => zstd_coding(w).fed,
            BlockCoder::Xz { s } => xz_coding(s).fed,
        }
    }

    /// What it has made of that so far.
    pub open spec fn made(self) -> Seq<u8> {
        match self {
            BlockCoder::Store { fed, .. } => fed@,
            BlockCoder::Zstd { w } => zstd_coding(w).made,
            BlockCoder::Xz { s } => xz_coding(s).made,
        }
    }

    /// It takes more, and what it makes will be within the reader's limits.
    pub open spec fn open(self) -> bool {
        match self {
            BlockCoder::Store { open, .. } => open@,
            BlockCoder::Zstd { w } => zstd_coding(w).open && zstd_coding(w).window_log
                <= MAX_WINDOW_LOG,
            BlockCoder::Xz { s } => xz_coding(s).open && !xz_coding(s).ended && xz_coding(
                s,
            ).fed.len() <= XZ_MAX,
        }
    }

    /// It encodes as a codec, a level, a block size and a number of workers ask.
    pub open spec fn is_for(self, codec: Codec, level: i32, block_size: int, workers: u32) -> bool {
        match self {
            BlockCoder::Store { .. } => codec == Codec::Store,
            BlockCoder::Zstd { w } => {
                &&& codec == Codec::Zstd
                &&& zstd_coding(w).level == level
                &&& zstd_coding(w).window_log == window_log_of(block_size)
                &&& zstd_coding(w).workers == workers
            },
            BlockCoder::Xz { s } => codec == Codec::Xz && xz_coding(s).preset == xz_preset(level),
        }
    }

    /// An encoder for one block.
    pub fn begin(codec: Codec, level: i32, block_size: usize, workers: u32) -> (r: Result<
        BlockCoder,
        Error,
    >)
        ensures
            match r {
                Ok(c) => {
                    &&& c.fed() == Seq::<u8>::empty()
                    &&& c.made() == Seq::<u8>::empty()
                    &&& c.open()
                    &&& c.is_for(codec, level, block_size as int, workers)
                },
                Err(e) => {
                    &&& e.fault == Fault::Encoder
                    &&& e.cause is Io
                    &&& is_refused(Seq::empty(), codec, level, block_size as int, workers)
                },
            },
    {
        match codec {
            Codec::Store => Ok(
                BlockCoder::Store { fed: Ghost(Seq::empty()), open: Ghost(true) },
            ),
            Codec::Zstd => match zstd_begin(level, window_log_for(block_size), workers) {
                Ok(w) => Ok(BlockCoder::Zstd { w }),
                Err(e) => {
                    assert(Seq::<u8>::empty().take(0) =~= Seq::<u8>::empty());
                    Err(Error::io(Fault::Encoder, e))
                },
            },
            Codec::Xz => {
                let preset: u32 = if level < 0 {
                    0
                } else if level > 9 {
                    9
                } else {
                    level as u32
                };
                match xz_begin(preset) {
                    Ok(s) => Ok(BlockCoder::Xz { s }),
                    Err(e) => Err(Error::io(Fault::Encoder, e)),
                }
            },
        }
    }

    /// Take in `input`; gives what has been made by then and not been given before.
    pub fn feed(&mut self, input: &[u8]) -> (r: Result<Vec<u8>, Error>)
        requires
            old(self).open(),
        ensures
            match r {
                Ok(out) => {
                    &&& final(self).fed() == old(self).fed() + input@
                    &&& final(self).made() == old(self).made() + out@
                    &&& final(self).open()
                },
                Err(e) => {
                    &&& e.fault == Fault::Encoder
                    &&& forall|codec: Codec, level: i32, block_size: int, workers: u32| #[trigger]
                        old(self).is_for(codec, level, block_size, workers) ==> is_refused(
                            old(self).fed() + input@,
                            codec,
                            level,
                            block_size,
                            workers,
                        )
                },
            },
            forall|codec: Codec, level: i32, block_size: int, workers: u32| #[trigger]
                old(self).is_for(codec, level, block_size, workers) && r is Ok
                    ==> final(self).is_for(codec, level, block_size, workers),
    {
        let ghost whole = self.fed() + input@;
        assert(whole.take(whole.len() as int) =~= whole);
        match self {
            BlockCoder::Store { fed, open } => {
                let mut out: Vec<u8> = Vec::new();
                out.extend_from_slice(input);
                assert(out@ =~= input@);
                *fed = Ghost(fed@ + input@);
                Ok(out)
            },
            BlockCoder::Zstd { w } => match zstd_feed(w, input) {
                Ok(out) => Ok(out),
                Err(e) => Err(Error::io(Fault::Encoder, e)),
            },
            BlockCoder::Xz { s } => xz_feed_all(s, input),
        }
    }

    /// Take in nothing more; gives the rest of what has been made.
    pub fn close(&mut self) -> (r: Result<Vec<u8>, Error>)
        requires
            old(self).open(),
        ensures
            match r {
                Ok(out) => {
                    &&& final(self).made() == old(self).made() + out@
                    &&& final(self).fed() == old(self).fed()
                    &&& forall|codec: Codec, level: i32, block_size: int, workers: u32| #[trigger]
                        old(self).is_for(codec, level, block_size, workers) ==> final(self).is_for(
                            codec,
                            level,
                            block_size,
                            workers,
                        ) && is_block_of(
                            final(self).made(),
                            old(self).fed(),
                            codec,
                            level,
                            block_size,
                            workers,
                        ) && raw_decoded(codec, final(self).made()) == Some(old(self).fed())
                },
                Err(e) => {
                    &&& e.fault == Fault::Encoder
                    &&& forall|codec: Codec, level: i32, block_size: int, workers: u32| #[trigger]
                        old(self).is_for(codec, level, block_size, workers) ==> is_refused(
                            old(self).fed(),
                            codec,
                            level,
                            block_size,
                            workers,
                        )
                },
            },
    {
        let ghost whole = self.fed();
        assert(whole.take(whole.len() as int) =~= whole);
        match self {
            BlockCoder::Store { fed, open } => {
                let out: Vec<u8> = Vec::new();
                assert(fed@ + out@ =~= fed@);
                *open = Ghost(false);
                Ok(out)
            },
            BlockCoder::Zstd { w } => match zstd_close(w) {
                Ok(out) => Ok(out),
                Err(e) => Err(Error::io(Fault::Encoder, e)),
            },
            BlockCoder::Xz { s } => xz_close_all(s),
        }
    }
}

/// Feed an xz encoder all of `input`, piece by piece as it takes it.
fn xz_feed_all(s: &mut xz2::stream::Stream, input: &[u8]) -> (r: Result<Vec<u8>, Error>)
    requires
        xz_coding(*old(s)).open,
        !xz_coding(*old(s)).ended,
        xz_coding(*old(s)).fed.len() <= XZ_MAX,
    ensures
        match r {
            Ok(out) => {
                &&& xz_coding(*final(s)) == (XzCoding {
                    fed: xz_coding(*old(s)).fed + input@,
                    made: xz_coding(*old(s)).made + out@,
                    ..xz_coding(*old(s))
                })
                &&& xz_coding(*final(s)).fed.len() <= XZ_MAX
            },
            Err(e) => e.fault == Fault::Encoder && xz_coding(*old(s)).fed.len() + input@.len()
                > XZ_MAX,
        },
{
    let ghost a = xz_coding(*s);
    let start: u64 = xz_taken(s);
    if input.len() as u64 > XZ_MAX - start {
        return Err(Error::new(Fault::Encoder));
    }
    let mut out: Vec<u8> = Vec::new();
    let mut at: usize = 0;
    proof {
        assert(input@.take(0) =~= Seq::<u8>::empty());
        assert(a.fed + input@.take(0) =~= a.fed);
        assert(a.made + out@ =~= a.made);
    }
    while at < input.len()
        invariant
            start == a.fed.len(),
            start + input@.len() <= XZ_MAX,
            at <= input@.len(),
            a.open,
            xz_coding(*s) == (XzCoding {
                fed: a.fed + input@.take(at as int),
                made: a.made + out@,
                ..a
            }),
            at > 0 || out@.len() > 0 ==> xz_coding(*s).made.len() <= u64::MAX,
        decreases input@.len() - at, u64::MAX - xz_coding(*s).made.len(),
    {
        let ghost before = xz_coding(*s);
        let rest = vstd::slice::slice_subrange(input, at, input.len());
        let step = xz_feed(s, rest);
        let mut piece = match step {
            Ok(piece) => piece,
            Err(_) => vstd::pervasive::unreached(),
        };
        let taken: u64 = xz_taken(s);
        let ghost old_out = out@;
        let ghost p = piece@;
        out.append(&mut piece);
        let next: usize = (taken - start) as usize;
        proof {
            let after = xz_coding(*s);
            assert(before.fed + rest@ =~= a.fed + input@);
            assert(after.fed =~= a.fed + input@.take(next as int));
            assert(out@ =~= old_out + p);
            assert(a.made + out@ =~= before.made + p);
        }
        at = next;
    }
    assert(input@.take(at as int) =~= input@);
    Ok(out)
}

/// Let an xz encoder finish, piece by piece as it gives its output.
fn xz_close_all(s: &mut xz2::stream::Stream) -> (r: Result<Vec<u8>, Error>)
    requires
        !xz_coding(*old(s)).ended,
        xz_coding(*old(s)).fed.len() <= XZ_MAX,
    ensures
        r is Ok,
        r matches Ok(out) ==> {
            &&& xz_coding(*final(s)).made == xz_coding(*old(s)).made + out@
            &&& xz_coding(*final(s)).fed == xz_coding(*old(s)).fed
            &&& xz_coding(*final(s)).preset == xz_coding(*old(s)).preset
            &&& xz_stream(
                xz_coding(*final(s)).made,
                xz_coding(*old(s)).fed,
                xz_coding(*old(s)).preset,
            )
            &&& xz_decoded(xz_coding(*final(s)).made) == Some(xz_coding(*old(s)).fed)
        },
{
    let ghost a = xz_coding(*s);
    let mut out: Vec<u8> = Vec::new();
    assert(a.made + out@ =~= a.made);
    let mut ended: bool = false;
    while !ended
        invariant
            a.fed.len() <= XZ_MAX,
            xz_coding(*s).fed == a.fed,
            xz_coding(*s).preset == a.preset,
            xz_coding(*s).made == a.made + out@,
            xz_coding(*s).ended == ended,
            ended ==> xz_stream(xz_coding(*s).made, a.fed, a.preset) && xz_decoded(
                xz_coding(*s).made,
            ) == Some(a.fed),
            out@.len() > 0 ==> xz_coding(*s).made.len() <= u64::MAX,
        decreases (if ended { 0int } else { 1 }), u64::MAX - xz_coding(*s).made.len(),
    {
        let ghost before = xz_coding(*s);
        let step = xz_close(s);
        let (mut piece, last) = match step {
            Ok(got) => got,
            Err(_) => vstd::pervasive::unreached(),
        };
        let ghost old_out = out@;
        let ghost p = piece@;
        out.append(&mut piece);
        proof {
            assert(out@ =~= old_out + p);
            assert(a.made + out@ =~= before.made + p);
        }
        ended = last;
    }
    Ok(out)
}

} // verus!
