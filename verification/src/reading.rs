//! Reading the files that are to be archived.
//!
//! Their bytes come from [`Files`], piece by piece, and what was asked of it, and
//! what it handed over, is part of every contract.

use vstd::prelude::*;

use crate::digest::{blake3_of, FileHasher};
use crate::error::{Error, Fault};
use crate::stream::{answer_of, since, window};

verus! {

/// How much of a file is read at once.
pub const CHUNK: u64 = 1_048_576;

/// A request for the bytes of a file at an offset, `len` of them, and what was handed
/// over; nothing if the request failed.
#[verifier::ext_equal]
pub struct Read {
    pub file: usize,
    pub offset: u64,
    pub len: u64,
    pub answer: Option<Seq<u8>>,
}

/// Where the bytes of the files come from that are to be archived. It is asked for the
/// number of a file, an offset and a length, and hands over the bytes there, none only
/// where the file ends.
pub trait Files {
    /// The requests so far, the first one first.
    spec fn asked(&self) -> Seq<Read>;

    /// It hands over the bytes of `files`, and never fails.
    spec fn hold(&self, files: Seq<Seq<u8>>) -> bool;

    /// Hand over the bytes of a file at an offset.
    fn read(&mut self, file: usize, offset: u64, len: u64) -> (r: Result<Vec<u8>, std::io::Error>)
        ensures
            final(self).asked() == old(self).asked().push(
                (Read { file, offset, len, answer: answer_of(r) }),
            ),
            forall|files: Seq<Seq<u8>>| #[trigger]
                old(self).hold(files) ==> final(self).hold(files) && (file < files.len()
                    ==> answer_of(r) == Some(window(files[file as int], offset as int, len as int))),
    ;
}

/// Files held in memory.
pub struct HeldFiles {
    files: Vec<Vec<u8>>,
    log: Ghost<Seq<Read>>,
}

/// What each of some files holds.
pub open spec fn file_views(files: Seq<Vec<u8>>) -> Seq<Seq<u8>> {
    files.map_values(|file: Vec<u8>| file@)
}

impl HeldFiles {
    /// Files held in memory, none of which has been read.
    pub fn new(files: Vec<Vec<u8>>) -> (s: HeldFiles)
        ensures
            s.hold(file_views(files@)),
            s.asked() == Seq::<Read>::empty(),
    {
        HeldFiles { files, log: Ghost(Seq::empty()) }
    }
}

impl Files for HeldFiles {
    closed spec fn asked(&self) -> Seq<Read> {
        self.log@
    }

    closed spec fn hold(&self, files: Seq<Seq<u8>>) -> bool {
        files == file_views(self.files@)
    }

    /// Past the last file there is nothing to read.
    fn read(&mut self, file: usize, offset: u64, len: u64) -> (r: Result<Vec<u8>, std::io::Error>) {
        let mut bytes: Vec<u8> = Vec::new();
        if file < self.files.len() {
            let data = &self.files[file];
            let n: u64 = data.len() as u64;
            let from: u64 = if offset < n {
                offset
            } else {
                n
            };
            let to: u64 = if len < n - from {
                from + len
            } else {
                n
            };
            bytes.extend_from_slice(
                vstd::slice::slice_subrange(data.as_slice(), from as usize, to as usize),
            );
            assert(bytes@ =~= window(data@, offset as int, len as int));
        }
        self.log = Ghost(self.log@.push(Read { file, offset, len, answer: Some(bytes@) }));
        Ok(bytes)
    }
}

/// A function that answers requests hands over the bytes of `files`, and never fails.
pub open spec fn supplies<F: Fn(usize, u64, u64) -> Result<Vec<u8>, std::io::Error>>(
    function: F,
    files: Seq<Seq<u8>>,
) -> bool {
    forall|k: usize, o: u64, l: u64, r: Result<Vec<u8>, std::io::Error>| #[trigger]
        call_ensures(function, (k, o, l), r) && k < files.len() ==> answer_of(r) == Some(
            window(files[k as int], o as int, l as int),
        )
}

/// Files by a function that answers requests. What was asked, and what came back, is noted
/// as it happens.
pub struct ReadBy<F: Fn(usize, u64, u64) -> Result<Vec<u8>, std::io::Error>> {
    function: F,
    log: Ghost<Seq<Read>>,
}

impl<F: Fn(usize, u64, u64) -> Result<Vec<u8>, std::io::Error>> ReadBy<F> {
    #[verifier::type_invariant]
    spec fn callable(self) -> bool {
        forall|k: usize, o: u64, l: u64| #[trigger] call_requires(self.function, (k, o, l))
    }

    /// Files by a function that can be asked for any bytes of any file.
    pub fn new(function: F) -> (s: ReadBy<F>)
        requires
            forall|k: usize, o: u64, l: u64| #[trigger] call_requires(function, (k, o, l)),
        ensures
            s.asked() == Seq::<Read>::empty(),
            forall|files: Seq<Seq<u8>>| #[trigger] s.hold(files) == supplies(function, files),
    {
        ReadBy { function, log: Ghost(Seq::empty()) }
    }
}

impl<F: Fn(usize, u64, u64) -> Result<Vec<u8>, std::io::Error>> Files for ReadBy<F> {
    closed spec fn asked(&self) -> Seq<Read> {
        self.log@
    }

    closed spec fn hold(&self, files: Seq<Seq<u8>>) -> bool {
        supplies(self.function, files)
    }

    fn read(&mut self, file: usize, offset: u64, len: u64) -> (r: Result<Vec<u8>, std::io::Error>) {
        proof {
            use_type_invariant(&*self);
        }
        let r = (self.function)(file, offset, len);
        self.log = Ghost(self.log@.push(Read { file, offset, len, answer: answer_of(r) }));
        r
    }
}

/// What was read since, and what was handed over.
pub open spec fn read_since<R: Files>(before: R, after: R) -> Seq<Read> {
    since(after.asked(), before.asked().len())
}

/// Every request was met with the bytes of `files`.
pub open spec fn supplied(files: Seq<Seq<u8>>, log: Seq<Read>) -> bool {
    forall|i: int|
        0 <= i < log.len() && (#[trigger] log[i]).file < files.len() ==> log[i].answer == Some(
            window(files[log[i].file as int], log[i].offset as int, log[i].len as int),
        )
}

/// Some requests were made, none were taken back; and where some files were held, they
/// are still held, and every request was met with their bytes.
pub open spec fn read_on<R: Files>(before: R, after: R) -> bool {
    &&& before.asked().is_prefix_of(after.asked())
    &&& forall|files: Seq<Seq<u8>>| #[trigger]
        before.hold(files) ==> after.hold(files) && supplied(files, read_since(before, after))
}

/// The requests of two calls, one behind the other.
pub proof fn lemma_read_on<R: Files>(first: R, mid: R, last: R)
    requires
        read_on(first, mid),
        read_on(mid, last),
    ensures
        read_on(first, last),
        read_since(first, last) == read_since(first, mid) + read_since(mid, last),
{
    let one = read_since(first, mid);
    let two = read_since(mid, last);
    let all = read_since(first, last);
    assert(all =~= one + two);
    assert forall|files: Seq<Seq<u8>>| #[trigger] first.hold(files) implies last.hold(files)
        && supplied(files, all) by {
        assert(mid.hold(files));
        assert forall|i: int|
            0 <= i < all.len() && (#[trigger] all[i]).file < files.len() implies all[i].answer
            == Some(
            window(files[all[i].file as int], all[i].offset as int, all[i].len as int),
        ) by {
            if i < one.len() {
                assert(all[i] == one[i]);
            } else {
                assert(all[i] == two[i - one.len()]);
            }
        }
    }
}

/// Nothing read is no request.
pub proof fn lemma_nothing_read<R: Files>(r: R)
    ensures
        read_on(r, r),
        read_since(r, r) == Seq::<Read>::empty(),
{
    assert(read_since(r, r) =~= Seq::<Read>::empty());
}

/// One request more.
pub proof fn lemma_read_once<R: Files>(first: R, mid: R, last: R, a: Read)
    requires
        read_on(first, mid),
        last.asked() == mid.asked().push(a),
        forall|files: Seq<Seq<u8>>| #[trigger]
            mid.hold(files) ==> last.hold(files) && (a.file < files.len() ==> a.answer == Some(
                window(files[a.file as int], a.offset as int, a.len as int),
            )),
    ensures
        read_on(first, last),
        read_since(first, last) == read_since(first, mid).push(a),
{
    assert(read_since(mid, last) =~= seq![a]);
    lemma_read_on(first, mid, last);
    assert(read_since(first, mid) + seq![a] =~= read_since(first, mid).push(a));
}

/// What was handed over, one answer behind the other.
pub open spec fn bytes_read(log: Seq<Read>) -> Seq<u8>
    decreases log.len(),
{
    if log.len() == 0 {
        Seq::empty()
    } else {
        bytes_read(log.drop_last()) + match log.last().answer {
            Some(piece) => piece,
            None => Seq::empty(),
        }
    }
}

/// The next piece of a file is asked for: where what was read so far ends.
pub open spec fn is_next_read(log: Seq<Read>, k: usize, a: Read) -> bool {
    &&& a.file == k
    &&& a.len == CHUNK
    &&& a.offset == bytes_read(log).len()
}

/// A file is being read from its start, piece by piece, and has not come to its end.
pub open spec fn reads_begin(log: Seq<Read>, k: usize) -> bool
    decreases log.len(),
{
    log.len() == 0 || {
        &&& reads_begin(log.drop_last(), k)
        &&& is_next_read(log.drop_last(), k, log.last())
        &&& log.last().answer matches Some(piece) && piece.len() > 0
    }
}

/// A file was read from its start to its end, and this is what it reads as.
pub open spec fn reads_as(log: Seq<Read>, k: usize, data: Seq<u8>) -> bool {
    &&& log.len() > 0
    &&& reads_begin(log.drop_last(), k)
    &&& is_next_read(log.drop_last(), k, log.last())
    &&& log.last().answer == Some(Seq::<u8>::empty())
    &&& data == bytes_read(log)
}

/// A file was read from its start, and reading it failed.
pub open spec fn read_fails(log: Seq<Read>, k: usize) -> bool {
    &&& log.len() > 0
    &&& reads_begin(log.drop_last(), k)
    &&& is_next_read(log.drop_last(), k, log.last())
    &&& log.last().answer is None
}

/// A file was read from its start, and goes on where no file offset points.
pub open spec fn reads_past(log: Seq<Read>, k: usize) -> bool {
    reads_begin(log, k) && bytes_read(log).len() > u64::MAX
}

/// A file was read from its start to its end, and this is its digest.
pub open spec fn hashes_to(log: Seq<Read>, k: usize, hash: Seq<u8>) -> bool {
    reads_as(log, k, bytes_read(log)) && hash == blake3_of(bytes_read(log))
}

/// One piece more.
pub proof fn lemma_piece_read(log: Seq<Read>, k: usize, a: Read)
    requires
        reads_begin(log, k),
        is_next_read(log, k, a),
    ensures
        match a.answer {
            Some(piece) => {
                &&& bytes_read(log.push(a)) == bytes_read(log) + piece
                &&& piece.len() > 0 ==> reads_begin(log.push(a), k)
                &&& piece.len() == 0 ==> reads_as(log.push(a), k, bytes_read(log))
            },
            None => read_fails(log.push(a), k),
        },
{
    assert(log.push(a).drop_last() =~= log);
    if a.answer is Some && a.answer->Some_0.len() == 0 {
        let piece = a.answer->Some_0;
        assert(piece =~= Seq::<u8>::empty());
        assert(bytes_read(log) + piece =~= bytes_read(log));
    }
}

/// Read a file to its end.
pub fn read_all<R: Files>(files: &mut R, k: usize) -> (r: Result<Vec<u8>, Error>)
    ensures
        read_on(*old(files), *final(files)),
        match r {
            Ok(data) => reads_as(read_since(*old(files), *final(files)), k, data@),
            Err(e) => {
                ||| e.fault == Fault::Source && read_fails(
                    read_since(*old(files), *final(files)),
                    k,
                )
                ||| e.fault == Fault::TooLong && reads_past(
                    read_since(*old(files), *final(files)),
                    k,
                )
            },
        },
        forall|held: Seq<Seq<u8>>| #[trigger]
            old(files).hold(held) && k < held.len() ==> match r {
                Ok(data) => data@ == held[k as int],
                Err(e) => e.fault == Fault::TooLong && held[k as int].len() > u64::MAX,
            },
{
    let mut data: Vec<u8> = Vec::new();
    let mut offset: u64 = 0;
    proof {
        lemma_nothing_read(*files);
    }
    loop
        invariant
            read_on(*old(files), *files),
            reads_begin(read_since(*old(files), *files), k),
            data@ == bytes_read(read_since(*old(files), *files)),
            data@.len() == offset,
        decreases u64::MAX - offset,
    {
        let ghost mid = *files;
        let ghost log = read_since(*old(files), mid);
        let reply = files.read(k, offset, CHUNK);
        proof {
            let a = Read { file: k, offset, len: CHUNK, answer: answer_of(reply) };
            lemma_read_once(*old(files), mid, *files, a);
            lemma_piece_read(log, k, a);
        }
        let chunk = match reply {
            Ok(chunk) => chunk,
            Err(e) => {
                proof {
                    lemma_held_read(*old(files), *files, k);
                }
                return Err(Error::io(Fault::Source, e));
            },
        };
        if chunk.len() == 0 {
            proof {
                lemma_held_read(*old(files), *files, k);
            }
            return Ok(data);
        }
        if chunk.len() as u64 > u64::MAX - offset {
            proof {
                lemma_held_read(*old(files), *files, k);
            }
            return Err(Error::new(Fault::TooLong));
        }
        let ghost before = data@;
        data.extend_from_slice(&chunk);
        assert(data@ =~= before + chunk@);
        offset = offset + chunk.len() as u64;
    }
}

/// The digest of a file, read in pieces.
pub fn hash_file<R: Files>(files: &mut R, k: usize) -> (r: Result<[u8; 32], Error>)
    ensures
        read_on(*old(files), *final(files)),
        match r {
            Ok(hash) => hashes_to(read_since(*old(files), *final(files)), k, hash@),
            Err(e) => {
                ||| e.fault == Fault::Unreadable && read_fails(
                    read_since(*old(files), *final(files)),
                    k,
                )
                ||| e.fault == Fault::TooLong && reads_past(
                    read_since(*old(files), *final(files)),
                    k,
                )
            },
        },
        forall|held: Seq<Seq<u8>>| #[trigger]
            old(files).hold(held) && k < held.len() ==> match r {
                Ok(hash) => hash@ == blake3_of(held[k as int]),
                Err(e) => e.fault == Fault::TooLong && held[k as int].len() > u64::MAX,
            },
{
    let mut hasher = FileHasher::new();
    let mut offset: u64 = 0;
    proof {
        lemma_nothing_read(*files);
    }
    loop
        invariant
            read_on(*old(files), *files),
            reads_begin(read_since(*old(files), *files), k),
            hasher@ == bytes_read(read_since(*old(files), *files)),
            hasher@.len() == offset,
        decreases u64::MAX - offset,
    {
        let ghost mid = *files;
        let ghost log = read_since(*old(files), mid);
        let reply = files.read(k, offset, CHUNK);
        proof {
            let a = Read { file: k, offset, len: CHUNK, answer: answer_of(reply) };
            lemma_read_once(*old(files), mid, *files, a);
            lemma_piece_read(log, k, a);
        }
        let chunk = match reply {
            Ok(chunk) => chunk,
            Err(e) => {
                proof {
                    lemma_held_read(*old(files), *files, k);
                }
                return Err(Error::io(Fault::Unreadable, e));
            },
        };
        if chunk.len() == 0 {
            proof {
                lemma_held_read(*old(files), *files, k);
            }
            return Ok(hasher.finish());
        }
        if chunk.len() as u64 > u64::MAX - offset {
            proof {
                lemma_held_read(*old(files), *files, k);
            }
            return Err(Error::new(Fault::TooLong));
        }
        hasher.update(&chunk);
        offset = offset + chunk.len() as u64;
    }
}

/// Where the requests were met from `files`, the pieces that were handed over are the
/// beginning of the file.
pub proof fn lemma_pieces_supplied(files: Seq<Seq<u8>>, log: Seq<Read>, k: usize)
    requires
        supplied(files, log),
        k < files.len(),
        reads_begin(log, k),
    ensures
        bytes_read(log).len() <= files[k as int].len(),
        bytes_read(log) == files[k as int].take(bytes_read(log).len() as int),
    decreases log.len(),
{
    let file = files[k as int];
    if log.len() > 0 {
        let fewer = log.drop_last();
        assert(supplied(files, fewer)) by {
            assert forall|i: int|
                0 <= i < fewer.len() && (#[trigger] fewer[i]).file
                    < files.len() implies fewer[i].answer == Some(
                window(files[fewer[i].file as int], fewer[i].offset as int, fewer[i].len as int),
            ) by {
                assert(fewer[i] == log[i]);
            }
        }
        lemma_pieces_supplied(files, fewer, k);
        assert(log.last() == log[log.len() - 1]);
        let piece = window(file, bytes_read(fewer).len() as int, CHUNK as int);
        assert(log.last().answer == Some(piece));
        assert(bytes_read(log) =~= file.take(bytes_read(log).len() as int));
    } else {
        assert(bytes_read(log) =~= file.take(0));
    }
}

/// Where the requests were met from `files`, a file reads as what it is, and reading it
/// does not fail.
pub proof fn law_reads_as_supplied(files: Seq<Seq<u8>>, log: Seq<Read>, k: usize)
    requires
        supplied(files, log),
        k < files.len(),
    ensures
        !read_fails(log, k),
        reads_as(log, k, bytes_read(log)) ==> bytes_read(log) == files[k as int],
        reads_past(log, k) ==> files[k as int].len() > u64::MAX,
{
    let file = files[k as int];
    if reads_past(log, k) {
        lemma_pieces_supplied(files, log, k);
    }
    if log.len() > 0 && reads_begin(log.drop_last(), k) && is_next_read(
        log.drop_last(),
        k,
        log.last(),
    ) {
        let fewer = log.drop_last();
        assert(supplied(files, fewer)) by {
            assert forall|i: int|
                0 <= i < fewer.len() && (#[trigger] fewer[i]).file
                    < files.len() implies fewer[i].answer == Some(
                window(files[fewer[i].file as int], fewer[i].offset as int, fewer[i].len as int),
            ) by {
                assert(fewer[i] == log[i]);
            }
        }
        lemma_pieces_supplied(files, fewer, k);
        assert(log.last() == log[log.len() - 1]);
        let n = bytes_read(fewer).len() as int;
        assert(log.last().answer == Some(window(file, n, CHUNK as int)));
        if log.last().answer == Some(Seq::<u8>::empty()) {
            assert(window(file, n, CHUNK as int).len() == 0);
            assert(file.take(n) =~= file);
            assert(bytes_read(fewer) + Seq::<u8>::empty() =~= bytes_read(fewer));
        }
    }
}

/// The same, of any files that are held.
pub proof fn lemma_held_read<R: Files>(before: R, after: R, k: usize)
    requires
        read_on(before, after),
    ensures
        forall|held: Seq<Seq<u8>>| #[trigger]
            before.hold(held) && k < held.len() ==> {
                let log = read_since(before, after);
                &&& !read_fails(log, k)
                &&& reads_as(log, k, bytes_read(log)) ==> bytes_read(log) == held[k as int]
                &&& reads_past(log, k) ==> held[k as int].len() > u64::MAX
            },
{
    let log = read_since(before, after);
    assert forall|held: Seq<Seq<u8>>| #[trigger] before.hold(held) && k < held.len() implies {
        &&& !read_fails(log, k)
        &&& reads_as(log, k, bytes_read(log)) ==> bytes_read(log) == held[k as int]
        &&& reads_past(log, k) ==> held[k as int].len() > u64::MAX
    } by {
        law_reads_as_supplied(held, log, k);
    }
}

} // verus!
