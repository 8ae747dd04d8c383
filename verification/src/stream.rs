//! Bytes on their way to and from an archive file.
//!
//! A [`Source`] is asked for bytes, a [`Sink`] is given bytes, [`Progress`] is told how
//! far things have come. Each of them says what it was asked, given or told so far, and
//! what a function did to it is stated over that.

use vstd::prelude::*;

use crate::error::{Error, Fault};

verus! {

/// The bytes of `data` from offset `o` on, `l` of them or as many as there are.
pub open spec fn window(data: Seq<u8>, o: int, l: int) -> Seq<u8> {
    let from = if o < data.len() { o } else { data.len() as int };
    let to = if o + l < data.len() { o + l } else { data.len() as int };
    data.subrange(from, to)
}

/// The bytes at a place are those that stand there: all that are asked for, if they are
/// there; else those up to the end; and none behind it.
pub proof fn law_window(data: Seq<u8>, o: int, l: int, i: int)
    requires
        0 <= o,
        0 <= l,
    ensures
        o + l <= data.len() ==> window(data, o, l).len() == l,
        o <= data.len() < o + l ==> window(data, o, l).len() == data.len() - o,
        data.len() < o ==> window(data, o, l).len() == 0,
        0 <= i < window(data, o, l).len() ==> window(data, o, l)[i] == data[o + i],
{
}

/// A request for the bytes at an offset, `len` of them, and what was handed over;
/// nothing if the request failed.
#[verifier::ext_equal]
pub struct Asked {
    pub offset: u64,
    pub len: u64,
    pub answer: Option<Seq<u8>>,
}

/// What was handed over, if anything.
pub open spec fn answer_of(r: Result<Vec<u8>, std::io::Error>) -> Option<Seq<u8>> {
    match r {
        Ok(bytes) => Some(bytes@),
        Err(_) => None,
    }
}

/// Where the bytes of an archive come from. It is asked for an offset and a length,
/// and hands over the bytes there, fewer only where the archive ends.
pub trait Source {
    /// The requests so far, the first one first.
    spec fn asked(&self) -> Seq<Asked>;

    /// It hands over the bytes of `data`, and never fails.
    spec fn holds(&self, data: Seq<u8>) -> bool;

    /// Hand over the bytes at an offset.
    fn fetch(&mut self, offset: u64, len: u64) -> (r: Result<Vec<u8>, std::io::Error>)
        ensures
            final(self).asked() == old(self).asked().push(
                (Asked { offset, len, answer: answer_of(r) }),
            ),
            forall|data: Seq<u8>| #[trigger]
                old(self).holds(data) ==> final(self).holds(data) && answer_of(r) == Some(
                    window(data, offset as int, len as int),
                ),
    ;
}

/// Where bytes go to, as they come.
pub trait Sink {
    /// The bytes taken so far.
    spec fn taken(&self) -> Seq<u8>;

    /// How often it was given bytes and failed to take them all.
    spec fn failures(&self) -> nat;

    /// Take some more bytes.
    fn put(&mut self, bytes: Vec<u8>) -> (r: Result<(), std::io::Error>)
        ensures
            match r {
                Ok(()) => {
                    &&& final(self).taken() == old(self).taken() + bytes@
                    &&& final(self).failures() == old(self).failures()
                },
                Err(_) => {
                    &&& old(self).taken().is_prefix_of(final(self).taken())
                    &&& final(self).taken().is_prefix_of(old(self).taken() + bytes@)
                    &&& final(self).failures() == old(self).failures() + 1
                },
            },
    ;
}

/// Who is told how far things have come.
pub trait Progress {
    /// What has been told so far, the first thing first.
    spec fn told(&self) -> Seq<Seq<char>>;

    /// Tell one thing more.
    fn tell(&mut self, text: &str)
        ensures
            final(self).told() == old(self).told().push(text@),
    ;
}

/// An archive held in memory.
pub struct Held {
    data: Vec<u8>,
    log: Ghost<Seq<Asked>>,
}

impl Held {
    /// An archive held in memory, of which nothing has been asked.
    pub fn new(data: Vec<u8>) -> (s: Held)
        ensures
            s.holds(data@),
            s.asked() == Seq::<Asked>::empty(),
    {
        Held { data, log: Ghost(Seq::empty()) }
    }
}

impl Source for Held {
    closed spec fn asked(&self) -> Seq<Asked> {
        self.log@
    }

    closed spec fn holds(&self, data: Seq<u8>) -> bool {
        data == self.data@
    }

    fn fetch(&mut self, offset: u64, len: u64) -> (r: Result<Vec<u8>, std::io::Error>) {
        let n: u64 = self.data.len() as u64;
        let from: u64 = if offset < n {
            offset
        } else {
            n
        };
        let to: u64 = if len < n - from {
            from + len
        } else {
            n
        };
        let mut bytes: Vec<u8> = Vec::new();
        bytes.extend_from_slice(
            vstd::slice::slice_subrange(self.data.as_slice(), from as usize, to as usize),
        );
        proof {
            assert(bytes@ =~= window(self.data@, offset as int, len as int));
        }
        self.log = Ghost(self.log@.push(Asked { offset, len, answer: Some(bytes@) }));
        Ok(bytes)
    }
}

/// Bytes collected in memory.
pub struct Collected {
    pub bytes: Vec<u8>,
}

impl Sink for Collected {
    open spec fn taken(&self) -> Seq<u8> {
        self.bytes@
    }

    open spec fn failures(&self) -> nat {
        0
    }

    fn put(&mut self, bytes: Vec<u8>) -> (r: Result<(), std::io::Error>) {
        let mut bytes = bytes;
        let ghost more = bytes@;
        self.bytes.append(&mut bytes);
        assert(self.bytes@ =~= old(self).bytes@ + more);
        Ok(())
    }
}

/// What was told, line by line.
pub struct Journal {
    pub lines: Vec<String>,
}

impl Progress for Journal {
    open spec fn told(&self) -> Seq<Seq<char>> {
        self.lines@.map_values(|line: String| line@)
    }

    fn tell(&mut self, text: &str) {
        self.lines.push(text.to_owned());
        assert(self.told() =~= old(self).told().push(text@));
    }
}

/// A function that answers requests hands over the bytes of `data`, and never fails.
pub open spec fn answers<F: Fn(u64, u64) -> Result<Vec<u8>, std::io::Error>>(
    function: F,
    data: Seq<u8>,
) -> bool {
    forall|o: u64, l: u64, r: Result<Vec<u8>, std::io::Error>| #[trigger]
        call_ensures(function, (o, l), r) ==> answer_of(r) == Some(
            window(data, o as int, l as int),
        )
}

/// A source by a function that answers requests. What was asked, and what came back, is
/// noted as it happens.
pub struct FetchBy<F: Fn(u64, u64) -> Result<Vec<u8>, std::io::Error>> {
    function: F,
    log: Ghost<Seq<Asked>>,
}

impl<F: Fn(u64, u64) -> Result<Vec<u8>, std::io::Error>> FetchBy<F> {
    #[verifier::type_invariant]
    spec fn callable(self) -> bool {
        forall|o: u64, l: u64| #[trigger] call_requires(self.function, (o, l))
    }

    /// A source by a function that can be asked for any bytes.
    pub fn new(function: F) -> (s: FetchBy<F>)
        requires
            forall|o: u64, l: u64| #[trigger] call_requires(function, (o, l)),
        ensures
            s.asked() == Seq::<Asked>::empty(),
            forall|data: Seq<u8>| #[trigger] s.holds(data) == answers(function, data),
    {
        FetchBy { function, log: Ghost(Seq::empty()) }
    }
}

impl<F: Fn(u64, u64) -> Result<Vec<u8>, std::io::Error>> Source for FetchBy<F> {
    closed spec fn asked(&self) -> Seq<Asked> {
        self.log@
    }

    closed spec fn holds(&self, data: Seq<u8>) -> bool {
        answers(self.function, data)
    }

    fn fetch(&mut self, offset: u64, len: u64) -> (r: Result<Vec<u8>, std::io::Error>) {
        proof {
            use_type_invariant(&*self);
        }
        let r = (self.function)(offset, len);
        self.log = Ghost(self.log@.push(Asked { offset, len, answer: answer_of(r) }));
        r
    }
}

/// A sink by a function that takes bytes. What it took is noted as it happens; of a piece
/// that it failed on nothing counts as taken.
pub struct GiveTo<F: Fn(Vec<u8>) -> Result<(), std::io::Error>> {
    function: F,
    log: Ghost<(Seq<u8>, nat)>,
}

impl<F: Fn(Vec<u8>) -> Result<(), std::io::Error>> GiveTo<F> {
    #[verifier::type_invariant]
    spec fn callable(self) -> bool {
        forall|bytes: Vec<u8>| #[trigger] call_requires(self.function, (bytes,))
    }

    /// A sink by a function that can be given any bytes.
    pub fn new(function: F) -> (s: GiveTo<F>)
        requires
            forall|bytes: Vec<u8>| #[trigger] call_requires(function, (bytes,)),
        ensures
            s.taken() == Seq::<u8>::empty(),
            s.failures() == 0,
    {
        GiveTo { function, log: Ghost((Seq::empty(), 0)) }
    }
}

impl<F: Fn(Vec<u8>) -> Result<(), std::io::Error>> Sink for GiveTo<F> {
    closed spec fn taken(&self) -> Seq<u8> {
        self.log@.0
    }

    closed spec fn failures(&self) -> nat {
        self.log@.1
    }

    fn put(&mut self, bytes: Vec<u8>) -> (r: Result<(), std::io::Error>) {
        proof {
            use_type_invariant(&*self);
        }
        let ghost more = bytes@;
        let r = (self.function)(bytes);
        self.log = Ghost(
            if r is Ok {
                (self.log@.0 + more, self.log@.1)
            } else {
                (self.log@.0, self.log@.1 + 1)
            },
        );
        r
    }
}

/// Progress by a function that is told. What it was told is noted as it happens.
pub struct TellBy<F: Fn(&str)> {
    function: F,
    log: Ghost<Seq<Seq<char>>>,
}

impl<F: Fn(&str)> TellBy<F> {
    #[verifier::type_invariant]
    spec fn callable(self) -> bool {
        forall|text: &str| #[trigger] call_requires(self.function, (text,))
    }

    /// Progress by a function that can be told anything.
    pub fn new(function: F) -> (s: TellBy<F>)
        requires
            forall|text: &str| #[trigger] call_requires(function, (text,)),
        ensures
            s.told() == Seq::<Seq<char>>::empty(),
    {
        TellBy { function, log: Ghost(Seq::empty()) }
    }
}

impl<F: Fn(&str)> Progress for TellBy<F> {
    closed spec fn told(&self) -> Seq<Seq<char>> {
        self.log@
    }

    fn tell(&mut self, text: &str) {
        proof {
            use_type_invariant(&*self);
        }
        (self.function)(text);
        self.log = Ghost(self.log@.push(text@));
    }
}

/// What came after the first `n`.
pub open spec fn since<T>(all: Seq<T>, n: nat) -> Seq<T> {
    all.skip(n as int)
}

/// The places that were asked for.
pub open spec fn places(log: Seq<Asked>) -> Seq<(u64, u64)> {
    Seq::new(log.len(), |i: int| (log[i].offset, log[i].len))
}

/// Between `before` and `after` these places were asked for, in this order, and
/// nothing else was.
pub open spec fn asked_for(before: Seq<Asked>, after: Seq<Asked>, at: Seq<(u64, u64)>) -> bool {
    &&& before.is_prefix_of(after)
    &&& places(since(after, before.len())) == at
}

/// Every request was met with the bytes of `data`.
pub open spec fn met_from(data: Seq<u8>, log: Seq<Asked>) -> bool {
    forall|i: int|
        0 <= i < log.len() ==> (#[trigger] log[i]).answer == Some(
            window(data, log[i].offset as int, log[i].len as int),
        )
}

/// A source that held some bytes still holds them, and met every request since
/// with them.
pub open spec fn stays_true<S: Source>(before: S, after: S) -> bool {
    forall|data: Seq<u8>| #[trigger]
        before.holds(data) ==> after.holds(data) && met_from(
            data,
            since(after.asked(), before.asked().len()),
        )
}

/// The requests of two calls, one behind the other.
pub proof fn lemma_asked_on<S: Source>(
    first: S,
    mid: S,
    last: S,
    at: Seq<(u64, u64)>,
    more: Seq<(u64, u64)>,
)
    requires
        asked_for(first.asked(), mid.asked(), at),
        asked_for(mid.asked(), last.asked(), more),
        stays_true(first, mid),
        stays_true(mid, last),
    ensures
        asked_for(first.asked(), last.asked(), at + more),
        stays_true(first, last),
        since(last.asked(), first.asked().len()) == since(mid.asked(), first.asked().len()) + since(
            last.asked(),
            mid.asked().len(),
        ),
{
    let n = first.asked().len();
    let one = since(mid.asked(), n);
    let two = since(last.asked(), mid.asked().len());
    let all = since(last.asked(), n);
    assert(all =~= one + two);
    assert(places(all) =~= places(one) + places(two));
    assert forall|data: Seq<u8>| #[trigger] first.holds(data) implies last.holds(data) && met_from(
        data,
        all,
    ) by {
        assert(mid.holds(data));
        assert forall|i: int| 0 <= i < all.len() implies (#[trigger] all[i]).answer == Some(
            window(data, all[i].offset as int, all[i].len as int),
        ) by {
            if i < one.len() {
                assert(all[i] == one[i]);
            } else {
                assert(all[i] == two[i - one.len()]);
            }
        }
    }
}

/// Nothing asked is no request.
pub proof fn lemma_nothing_asked<S: Source>(s: S)
    ensures
        asked_for(s.asked(), s.asked(), Seq::empty()),
        stays_true(s, s),
        since(s.asked(), s.asked().len()) == Seq::<Asked>::empty(),
{
    assert(since(s.asked(), s.asked().len()) =~= Seq::<Asked>::empty());
    assert(places(since(s.asked(), s.asked().len())) =~= Seq::<(u64, u64)>::empty());
}

/// One request more.
pub proof fn lemma_asked_once<S: Source>(before: S, after: S, a: Asked)
    requires
        after.asked() == before.asked().push(a),
        forall|data: Seq<u8>| #[trigger]
            before.holds(data) ==> after.holds(data) && a.answer == Some(
                window(data, a.offset as int, a.len as int),
            ),
    ensures
        asked_for(before.asked(), after.asked(), seq![(a.offset, a.len)]),
        stays_true(before, after),
        since(after.asked(), before.asked().len()) == seq![a],
{
    assert(since(after.asked(), before.asked().len()) =~= seq![a]);
    assert(places(seq![a]) =~= seq![(a.offset, a.len)]);
}

/// What a stream handed on since, the sink took: all of it, unless the sink failed;
/// and then the sink took it up to some byte.
pub open spec fn passed_on<S: Sink>(sink: S, now: S, out: Output, out_now: Output) -> bool {
    let more = since(out_now.handed_on(), out.handed_on().len());
    &&& out.handed_on().is_prefix_of(out_now.handed_on())
    &&& sink.failures() <= now.failures() <= sink.failures() + 1
    &&& now.failures() == sink.failures() ==> now.taken() == sink.taken() + more
    &&& sink.taken().is_prefix_of(now.taken())
    &&& now.taken().is_prefix_of(sink.taken() + more)
}

/// Handing on, and then handing on some more.
pub proof fn lemma_passed_on<S: Sink>(s0: S, s1: S, s2: S, o0: Output, o1: Output, o2: Output)
    requires
        passed_on(s0, s1, o0, o1),
        passed_on(s1, s2, o1, o2),
        s1.failures() == s0.failures(),
    ensures
        passed_on(s0, s2, o0, o2),
{
    let n = o0.handed_on().len();
    let all = since(o2.handed_on(), n);
    let one = since(o1.handed_on(), n);
    let two = since(o2.handed_on(), o1.handed_on().len());
    assert(all =~= one + two);
    assert(s0.taken() + all =~= s1.taken() + two);
}

/// Nothing handed on, nothing taken.
pub proof fn lemma_nothing_passed<S: Sink>(sink: S, before: Output, after: Output)
    requires
        after.handed_on() == before.handed_on(),
    ensures
        passed_on(sink, sink, before, after),
{
    assert(since(after.handed_on(), before.handed_on().len()) =~= Seq::<u8>::empty());
    assert(sink.taken() + Seq::<u8>::empty() =~= sink.taken());
}

/// Some pieces, one behind the other.
pub open spec fn joined(pieces: Seq<Seq<u8>>) -> Seq<u8>
    decreases pieces.len(),
{
    if pieces.len() == 0 {
        Seq::empty()
    } else {
        joined(pieces.drop_last()) + pieces.last()
    }
}

/// One piece more is that piece behind the others.
pub proof fn lemma_joined_push(pieces: Seq<Seq<u8>>, piece: Seq<u8>)
    ensures
        joined(pieces.push(piece)) == joined(pieces) + piece,
{
    assert(pieces.push(piece).drop_last() =~= pieces);
}

/// A window within a prefix does not see what follows the prefix.
pub proof fn lemma_window_of_prefix(data: Seq<u8>, more: Seq<u8>, o: int, l: int)
    requires
        0 <= o,
        0 <= l,
        o + l <= data.len(),
    ensures
        window(data + more, o, l) == window(data, o, l),
        window(data, o, l) == data.subrange(o, o + l),
{
    assert(window(data + more, o, l) =~= window(data, o, l));
}

/// An archive being written: an append-only stream of bytes. The bytes not yet
/// handed on wait here, so that a caller can move them to a file as they come.
pub struct Output {
    base: u64,
    waiting: Vec<u8>,
    gone: Ghost<Seq<u8>>,
}

impl View for Output {
    type V = Seq<u8>;

    /// Everything written so far, from the first byte on.
    open spec fn view(&self) -> Seq<u8> {
        self.handed_on() + self.pending()
    }
}

impl Output {
    /// The bytes that `take` has handed on.
    pub closed spec fn handed_on(self) -> Seq<u8> {
        self.gone@
    }

    /// The bytes that wait for `take`.
    pub closed spec fn pending(self) -> Seq<u8> {
        self.waiting@
    }

    /// The stream's length can be said as a file offset.
    pub closed spec fn wf(self) -> bool {
        &&& self.base == self.gone@.len()
        &&& self.base + self.waiting@.len() <= u64::MAX
    }

    /// A well-formed stream's length is a file offset.
    pub proof fn lemma_len(self)
        requires
            self.wf(),
        ensures
            self@.len() <= u64::MAX,
    {
    }

    /// An empty stream.
    pub fn new() -> (out: Output)
        ensures
            out.wf(),
            out@ == Seq::<u8>::empty(),
            out.handed_on() == Seq::<u8>::empty(),
    {
        let out = Output { base: 0, waiting: Vec::new(), gone: Ghost(Seq::empty()) };
        assert(out@ =~= Seq::<u8>::empty());
        out
    }

    /// The number of bytes written so far.
    pub fn position(&self) -> (p: u64)
        requires
            self.wf(),
        ensures
            p == self@.len(),
    {
        self.base + self.waiting.len() as u64
    }

    /// Append `bytes`. Fails, and changes nothing, if the stream would outgrow
    /// what a file offset can say.
    pub fn write(&mut self, bytes: &[u8]) -> (r: Result<(), Error>)
        requires
            old(self).wf(),
        ensures
            final(self).wf(),
            final(self).handed_on() == old(self).handed_on(),
            match r {
                Ok(()) => final(self)@ == old(self)@ + bytes@ && old(self)@.len() + bytes@.len()
                    <= u64::MAX,
                Err(e) => final(self)@ == old(self)@ && e.fault == Fault::TooLong && old(
                    self,
                )@.len() + bytes@.len() > u64::MAX,
            },
    {
        let room: u64 = u64::MAX - self.position();
        if bytes.len() as u64 > room {
            return Err(Error::new(Fault::TooLong));
        }
        let ghost before = self.waiting@;
        self.waiting.extend_from_slice(bytes);
        proof {
            assert(self.waiting@ =~= before + bytes@);
            assert(self@ =~= old(self)@ + bytes@);
        }
        Ok(())
    }

    /// Hand on the bytes that wait. The stream as a whole stays what it is.
    pub fn take(&mut self) -> (bytes: Vec<u8>)
        requires
            old(self).wf(),
        ensures
            final(self).wf(),
            bytes@ == old(self).pending(),
            final(self).pending() == Seq::<u8>::empty(),
            final(self).handed_on() == old(self).handed_on() + bytes@,
            final(self)@ == old(self)@,
    {
        let mut bytes: Vec<u8> = Vec::new();
        bytes.append(&mut self.waiting);
        self.base = self.base + bytes.len() as u64;
        self.gone = Ghost(self.gone@ + bytes@);
        proof {
            assert(bytes@ =~= old(self).pending());
            assert(self@ =~= old(self)@);
        }
        bytes
    }

    /// Hand on the bytes that wait to `sink`, and nothing else. The stream as a whole
    /// stays what it is.
    pub fn drain<S: Sink>(&mut self, sink: &mut S) -> (r: Result<(), Error>)
        requires
            old(self).wf(),
        ensures
            final(self).wf(),
            final(self)@ == old(self)@,
            final(self).pending() == Seq::<u8>::empty(),
            final(self).handed_on() == old(self)@,
            old(self).pending().len() == 0 ==> r is Ok && *final(sink) == *old(sink),
            r is Ok ==> final(sink).taken() == old(sink).taken() + old(self).pending(),
            passed_on(*old(sink), *final(sink), *old(self), *final(self)),
            match r {
                Ok(()) => final(sink).failures() == old(sink).failures(),
                Err(e) => {
                    &&& e.fault == Fault::Sink
                    &&& final(sink).failures() == old(sink).failures() + 1
                },
            },
    {
        if self.waiting.len() == 0 {
            proof {
                assert(self.pending() =~= Seq::<u8>::empty());
                assert(self@ =~= self.handed_on());
                assert(sink.taken() + self.pending() =~= sink.taken());
                assert(since(self.handed_on(), self.handed_on().len()) =~= self.pending());
            }
            return Ok(());
        }
        let bytes = self.take();
        assert(since(self.handed_on(), old(self).handed_on().len()) =~= old(self).pending());
        match sink.put(bytes) {
            Ok(()) => Ok(()),
            Err(e) => Err(Error::io(Fault::Sink, e)),
        }
    }
}

} // verus!
