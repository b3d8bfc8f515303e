//! The byte writers and byte readers that the library works with.
//!
//! A writer is known by the calls that may take it from one state to the next, and every
//! type that is one says for itself which these are. A reader is known by its history:
//! what it has delivered, and how it has ended. Where more is certain of a reader, such as
//! all that it will ever deliver, it is settled.

use vstd::prelude::*;

verus! {

/// A destination for bytes that may refuse them.
pub trait Write: Sized {
    /// Whether writing `bytes` may take the writer from `before` to `after`, where `taken`
    /// tells whether it took all of them.
    spec fn wrote(before: Self, bytes: Seq<u8>, after: Self, taken: bool) -> bool;

    /// Whether flushing may take the writer from `before` to `after`, where `done` tells
    /// whether it handed on all that it held back.
    spec fn flushed(before: Self, after: Self, done: bool) -> bool;

    /// Writes all of `bytes`. The result tells whether the writer took them; a writer that
    /// refuses may have taken a part.
    fn write_all(&mut self, bytes: &[u8]) -> (taken: bool)
        ensures
            Self::wrote(*old(self), bytes@, *final(self), taken),
    ;

    /// Hands on what the writer still holds back. The result tells whether it could.
    fn flush(&mut self) -> (done: bool)
        ensures
            Self::flushed(*old(self), *final(self), done),
    ;
}

/// A byte vector takes everything and keeps it.
impl Write for Vec<u8> {
    open spec fn wrote(before: Self, bytes: Seq<u8>, after: Self, taken: bool) -> bool {
        taken && after@ == before@ + bytes
    }

    open spec fn flushed(before: Self, after: Self, done: bool) -> bool {
        done && after@ == before@
    }

    fn write_all(&mut self, bytes: &[u8]) -> (taken: bool) {
        self.extend_from_slice(bytes);
        assert(self@ =~= old(self)@ + bytes@);
        true
    }

    fn flush(&mut self) -> (done: bool) {
        true
    }
}

/// A writer that takes everything and keeps nothing.
#[derive(Debug)]
pub struct Sink;

impl Write for Sink {
    open spec fn wrote(before: Self, bytes: Seq<u8>, after: Self, taken: bool) -> bool {
        taken
    }

    open spec fn flushed(before: Self, after: Self, done: bool) -> bool {
        done
    }

    fn write_all(&mut self, bytes: &[u8]) -> (taken: bool) {
        true
    }

    fn flush(&mut self) -> (done: bool) {
        true
    }
}

/// A writer that hands everything on to two functions: one that writes bytes and one that
/// flushes, each of which tells whether it could.
pub struct Sending<F: Fn(&[u8]) -> bool, G: Fn() -> bool> {
    write: F,
    flush: G,
}

impl<F: Fn(&[u8]) -> bool, G: Fn() -> bool> Sending<F, G> {
    #[verifier::type_invariant]
    spec fn callable(self) -> bool {
        &&& forall|bytes: &[u8]| #[trigger] call_requires(self.write, (bytes,))
        &&& call_requires(self.flush, ())
    }

    /// The function that writes.
    pub closed spec fn write_function(&self) -> F {
        self.write
    }

    /// The function that flushes.
    pub closed spec fn flush_function(&self) -> G {
        self.flush
    }

    /// The writer that two functions make. Whatever is written to it or flushed, the
    /// functions stay, and the outcome is theirs.
    pub fn new(write: F, flush: G) -> (writer: Self)
        requires
            forall|bytes: &[u8]| #[trigger] call_requires(write, (bytes,)),
            call_requires(flush, ()),
        ensures
            writer.write_function() == write,
            writer.flush_function() == flush,
            forall|before: Self, bytes: Seq<u8>, after: Self, taken: bool| #[trigger]
                Self::wrote(before, bytes, after, taken) ==> {
                    &&& after == before
                    &&& exists|chunk: &[u8]|
                        chunk@ == bytes && #[trigger] call_ensures(
                            before.write_function(),
                            (chunk,),
                            taken,
                        )
                },
            forall|before: Self, after: Self, done: bool| #[trigger]
                Self::flushed(before, after, done) ==> after == before && call_ensures(
                    before.flush_function(),
                    (),
                    done,
                ),
    {
        Sending { write, flush }
    }
}

impl<F: Fn(&[u8]) -> bool, G: Fn() -> bool> Write for Sending<F, G> {
    open spec fn wrote(before: Self, bytes: Seq<u8>, after: Self, taken: bool) -> bool {
        &&& after == before
        &&& exists|chunk: &[u8]|
            chunk@ == bytes && #[trigger] call_ensures(before.write_function(), (chunk,), taken)
    }

    open spec fn flushed(before: Self, after: Self, done: bool) -> bool {
        after == before && call_ensures(before.flush_function(), (), done)
    }

    fn write_all(&mut self, bytes: &[u8]) -> (taken: bool) {
        proof {
            use_type_invariant(&*self);
        }
        let taken = (self.write)(bytes);
        assert(call_ensures(old(self).write_function(), (bytes,), taken));
        taken
    }

    fn flush(&mut self) -> (done: bool) {
        proof {
            use_type_invariant(&*self);
        }
        (self.flush)()
    }
}

/// Whether a source that has delivered `delivered`, and has ended so if at all, can be
/// one that delivers `bytes` in all and then fails with `fault`, or just ends.
pub open spec fn fits(
    delivered: Seq<u8>,
    ended: Option<Option<Seq<char>>>,
    bytes: Seq<u8>,
    fault: Option<Seq<char>>,
) -> bool {
    match ended {
        Some(end) => bytes == delivered && fault == end,
        None => delivered.is_prefix_of(bytes),
    }
}

/// What is known of a source of bytes.
pub trait Source: Sized {
    /// Every byte that the source has delivered so far.
    spec fn delivered(&self) -> Seq<u8>;

    /// How the source has ended, if it has: by itself, or with the message of a failure.
    spec fn ended(&self) -> Option<Option<Seq<char>>>;

    /// Whether it is settled that the source delivers `bytes` in all and then fails with
    /// `fault`, or just ends.
    spec fn settled(&self, bytes: Seq<u8>, fault: Option<Seq<char>>) -> bool;

    /// What is settled agrees with what has happened.
    proof fn lemma_settled_fits(&self, bytes: Seq<u8>, fault: Option<Seq<char>>)
        requires
            self.settled(bytes, fault),
        ensures
            fits(self.delivered(), self.ended(), bytes, fault),
    ;
}

/// The bytes that a source has delivered between two states.
pub open spec fn since<R: Source>(before: &R, after: &R) -> Seq<u8> {
    after.delivered().skip(before.delivered().len() as int)
}

/// Whether `after` can be a later state of the source in `before`: what was delivered and
/// what was settled still is, and a source that had ended delivers no more and has ended as
/// it had.
pub open spec fn follows<R: Source>(before: &R, after: &R) -> bool {
    &&& before.delivered().is_prefix_of(after.delivered())
    &&& forall|bytes: Seq<u8>, fault: Option<Seq<char>>|
        before.settled(bytes, fault) ==> #[trigger] after.settled(bytes, fault)
    &&& before.ended() is Some ==> {
        &&& after.delivered() == before.delivered()
        &&& after.ended() == before.ended()
    }
}

/// Whether, as far as `after` tells, the source can be one that delivers `bytes` from
/// `before` on and then fails with `fault`, or just ends.
pub open spec fn reads_as<R: Source>(
    before: &R,
    after: &R,
    bytes: Seq<u8>,
    fault: Option<Seq<char>>,
) -> bool {
    fits(since(before, after), after.ended(), bytes, fault)
}

/// A source of which everything is settled is read as just that, whatever has been read of
/// it in the meantime.
pub proof fn law_settled_source<R: Source>(
    before: &R,
    after: &R,
    bytes: Seq<u8>,
    fault: Option<Seq<char>>,
)
    requires
        before.settled(bytes, fault),
        follows(before, after),
    ensures
        reads_as(before, after, bytes.skip(before.delivered().len() as int), fault),
{
    after.lemma_settled_fits(bytes, fault);
    let had = before.delivered().len() as int;
    let got = since(before, after);
    if after.ended() is None {
        let all = after.delivered();
        assert forall|i: int| 0 <= i < got.len() implies got[i] == bytes.skip(had)[i] by {
            assert(all[had + i] == bytes.subrange(0, all.len() as int)[had + i]);
        }
        assert(got =~= bytes.skip(had).subrange(0, got.len() as int));
    }
}

/// A source of bytes that can be read. It ends or fails at some point, and from there on it
/// can still be read, with nothing new.
pub trait Read: Source {
    /// Appends up to `limit` of the next bytes to `buffer` and returns how many. Zero bytes
    /// mean that the source has ended. One that has ended gives zero bytes again, and one
    /// that has failed fails again with the same message.
    fn read(&mut self, buffer: &mut Vec<u8>, limit: usize) -> (outcome: Result<usize, String>)
        requires
            limit > 0,
        ensures
            follows(old(self), final(self)),
            match outcome {
                Ok(count) => {
                    &&& count <= limit
                    &&& count == since(old(self), final(self)).len()
                    &&& final(buffer)@ == old(buffer)@ + since(old(self), final(self))
                    &&& final(self).ended() == if count == 0 {
                        Some(None::<Seq<char>>)
                    } else {
                        None
                    }
                },
                Err(message) => {
                    &&& final(self).delivered() == old(self).delivered()
                    &&& final(self).ended() == Some(Some(message@))
                },
            },
    ;

    /// Appends all that is left to `buffer`. Of a source that has ended nothing is left, and
    /// one that has failed fails again with the same message.
    fn read_to_end(&mut self, buffer: &mut Vec<u8>) -> (outcome: Result<(), String>)
        ensures
            follows(old(self), final(self)),
            match outcome {
                Ok(()) => {
                    &&& final(buffer)@ == old(buffer)@ + since(old(self), final(self))
                    &&& final(self).ended() == Some(None::<Seq<char>>)
                },
                Err(message) => final(self).ended() == Some(Some(message@)),
            },
    ;
}

/// A reader over bytes in memory. It never fails.
pub struct Cursor {
    bytes: Vec<u8>,
    position: usize,
    over: Ghost<bool>,
}

impl Cursor {
    #[verifier::type_invariant]
    spec fn inside(self) -> bool {
        &&& self.position <= self.bytes@.len()
        &&& self.over@ ==> self.position == self.bytes@.len()
    }

    /// A reader that delivers `bytes` from the start.
    pub fn new(bytes: Vec<u8>) -> (cursor: Self)
        ensures
            cursor.delivered() == Seq::<u8>::empty(),
            cursor.ended() is None,
            cursor.settled(bytes@, None),
    {
        let cursor = Cursor { bytes, position: 0, over: Ghost(false) };
        assert(cursor.delivered() =~= seq![]);
        cursor
    }
}

impl Source for Cursor {
    closed spec fn delivered(&self) -> Seq<u8> {
        self.bytes@.take(self.position as int)
    }

    closed spec fn ended(&self) -> Option<Option<Seq<char>>> {
        if self.over@ {
            Some(None)
        } else {
            None
        }
    }

    closed spec fn settled(&self, bytes: Seq<u8>, fault: Option<Seq<char>>) -> bool {
        &&& self.inside()
        &&& bytes == self.bytes@
        &&& fault is None
    }

    proof fn lemma_settled_fits(&self, bytes: Seq<u8>, fault: Option<Seq<char>>) {
        assert(bytes.take(bytes.len() as int) =~= bytes);
    }
}

impl Read for Cursor {
    fn read(&mut self, buffer: &mut Vec<u8>, limit: usize) -> (outcome: Result<usize, String>) {
        proof {
            use_type_invariant(&*self);
        }
        let left: usize = self.bytes.len() - self.position;
        let count: usize = if limit < left {
            limit
        } else {
            left
        };
        let (_, after) = self.bytes.as_slice().split_at(self.position);
        let (chunk, _) = after.split_at(count);
        buffer.extend_from_slice(chunk);
        self.position = self.position + count;
        proof {
            if count == 0 {
                self.over@ = true;
            }
            assert(since(old(self), self) =~= chunk@);
            assert(buffer@ =~= old(buffer)@ + chunk@);
        }
        Ok(count)
    }

    fn read_to_end(&mut self, buffer: &mut Vec<u8>) -> (outcome: Result<(), String>) {
        proof {
            use_type_invariant(&*self);
        }
        let (_, after) = self.bytes.as_slice().split_at(self.position);
        buffer.extend_from_slice(after);
        self.position = self.bytes.len();
        proof {
            self.over@ = true;
            assert(since(old(self), self) =~= after@);
            assert(buffer@ =~= old(buffer)@ + after@);
        }
        Ok(())
    }
}

/// What a source is asked for.
#[derive(Debug, Clone, Copy, PartialEq, Eq)]
pub enum Demand {
    /// Some of the next bytes, at least one unless the source has ended, and no more than
    /// so many.
    UpTo(usize),
    /// All that is left.
    Everything,
}

/// Whether an answer keeps to a demand.
pub open spec fn answers(demand: Demand, answer: Result<Vec<u8>, String>) -> bool {
    demand matches Demand::UpTo(limit) ==> answer matches Ok(chunk) ==> chunk@.len() <= limit
}

/// A reader that gets everything from a function, which answers every demand with bytes
/// or with the message of a failure. Once the function has shown the end or has failed, it
/// is not called again.
pub struct Fetching<F: Fn(Demand) -> Result<Vec<u8>, String>> {
    fetch: F,
    taken: Ghost<Seq<u8>>,
    end: Option<Option<String>>,
}

impl<F: Fn(Demand) -> Result<Vec<u8>, String>> Fetching<F> {
    #[verifier::type_invariant]
    spec fn callable(self) -> bool {
        &&& forall|demand: Demand| #[trigger] call_requires(self.fetch, (demand,))
        &&& forall|demand: Demand, answer: Result<Vec<u8>, String>| #[trigger]
            call_ensures(self.fetch, (demand,), answer) ==> answers(demand, answer)
    }

    /// The function that everything comes from.
    pub closed spec fn function(&self) -> F {
        self.fetch
    }

    /// A reader that has delivered nothing yet.
    pub fn new(fetch: F) -> (reader: Self)
        requires
            forall|demand: Demand| #[trigger] call_requires(fetch, (demand,)),
            forall|demand: Demand, answer: Result<Vec<u8>, String>| #[trigger]
                call_ensures(fetch, (demand,), answer) ==> answers(demand, answer),
        ensures
            reader.function() == fetch,
            reader.delivered() == Seq::<u8>::empty(),
            reader.ended() is None,
    {
        Fetching { fetch, taken: Ghost(Seq::empty()), end: None }
    }

    /// The next bytes: none once the source has ended, the message again once it has failed,
    /// and else what the function answers.
    fn fetched(&mut self, demand: Demand) -> (answer: Result<Vec<u8>, String>)
        ensures
            final(self).function() == old(self).function(),
            old(self).ended() is None ==> call_ensures(old(self).function(), (demand,), answer),
            old(self).ended() is Some ==> (answer matches Ok(chunk) ==> chunk@.len() == 0),
            answers(demand, answer),
            match answer {
                Ok(chunk) => {
                    &&& final(self).delivered() == old(self).delivered() + chunk@
                    &&& final(self).ended() == old(self).ended()
                    &&& old(self).ended() matches Some(end) ==> end is None
                },
                Err(message) => {
                    &&& final(self).delivered() == old(self).delivered()
                    &&& final(self).ended() == Some(Some(message@))
                    &&& old(self).ended() is Some ==> final(self).ended() == old(self).ended()
                },
            },
    {
        proof {
            use_type_invariant(&*self);
        }
        match &self.end {
            Some(Some(message)) => {
                return Err(message.clone());
            },
            Some(None) => {
                let nothing: Vec<u8> = Vec::new();
                assert(self.taken@ + nothing@ =~= self.taken@);
                return Ok(nothing);
            },
            None => {},
        }
        let answer = (self.fetch)(demand);
        match &answer {
            Ok(chunk) => {
                proof {
                    self.taken@ = self.taken@ + chunk@;
                }
            },
            Err(message) => {
                self.end = Some(Some(message.clone()));
            },
        }
        answer
    }
}

impl<F: Fn(Demand) -> Result<Vec<u8>, String>> Source for Fetching<F> {
    closed spec fn delivered(&self) -> Seq<u8> {
        self.taken@
    }

    closed spec fn ended(&self) -> Option<Option<Seq<char>>> {
        match self.end {
            Some(Some(message)) => Some(Some(message@)),
            Some(None) => Some(None),
            None => None,
        }
    }

    /// Everything is settled once the source has ended, and nothing before.
    open spec fn settled(&self, bytes: Seq<u8>, fault: Option<Seq<char>>) -> bool {
        self.ended() == Some(fault) && self.delivered() == bytes
    }

    proof fn lemma_settled_fits(&self, bytes: Seq<u8>, fault: Option<Seq<char>>) {
    }
}

impl<F: Fn(Demand) -> Result<Vec<u8>, String>> Read for Fetching<F> {
    fn read(&mut self, buffer: &mut Vec<u8>, limit: usize) -> (outcome: Result<usize, String>)
        ensures
            final(self).function() == old(self).function(),
            old(self).ended() is None ==> match outcome {
                Ok(count) => exists|chunk: Vec<u8>|
                    chunk@ == since(old(self), final(self)) && #[trigger] call_ensures(
                        old(self).function(),
                        (Demand::UpTo(limit),),
                        Ok::<Vec<u8>, String>(chunk),
                    ),
                Err(message) => call_ensures(
                    old(self).function(),
                    (Demand::UpTo(limit),),
                    Err::<Vec<u8>, String>(message),
                ),
            },
    {
        let answer = self.fetched(Demand::UpTo(limit));
        proof {
            use_type_invariant(&*self);
        }
        match answer {
            Ok(mut chunk) => {
                let count: usize = chunk.len();
                buffer.append(&mut chunk);
                if count == 0 {
                    self.end = Some(None);
                }
                Ok(count)
            },
            Err(message) => Err(message),
        }
    }

    fn read_to_end(&mut self, buffer: &mut Vec<u8>) -> (outcome: Result<(), String>)
        ensures
            final(self).function() == old(self).function(),
            old(self).ended() is None ==> match outcome {
                Ok(()) => exists|chunk: Vec<u8>|
                    chunk@ == since(old(self), final(self)) && #[trigger] call_ensures(
                        old(self).function(),
                        (Demand::Everything,),
                        Ok::<Vec<u8>, String>(chunk),
                    ),
                Err(message) => call_ensures(
                    old(self).function(),
                    (Demand::Everything,),
                    Err::<Vec<u8>, String>(message),
                ),
            },
    {
        let answer = self.fetched(Demand::Everything);
        proof {
            use_type_invariant(&*self);
        }
        match answer {
            Ok(mut chunk) => {
                buffer.append(&mut chunk);
                self.end = Some(None);
                Ok(())
            },
            Err(message) => Err(message),
        }
    }
}

/// What a source has delivered since an earlier state is what it adds to what it had
/// delivered by then.
pub proof fn law_delivered_since<R: Source>(before: &R, after: &R)
    requires
        follows(before, after),
    ensures
        before.delivered() + since(before, after) == after.delivered(),
        before.ended() is Some ==> since(before, after).len() == 0,
{
    let had = before.delivered().len() as int;
    assert(before.delivered() + since(before, after) =~= after.delivered()) by {
        assert(before.delivered() =~= after.delivered().subrange(0, had));
    }
}

/// What a source has delivered is certain. What it would deliver beyond that is open as long
/// as it has not ended, and nothing once it has.
pub proof fn law_only_the_unread_is_open<R: Source>(
    before: &R,
    after: &R,
    bytes: Seq<u8>,
    fault: Option<Seq<char>>,
)
    requires
        follows(before, after),
    ensures
        ({
            let read = since(before, after);
            match after.ended() {
                Some(end) => reads_as(before, after, bytes, fault) <==> bytes == read && fault
                    == end,
                None => reads_as(before, after, bytes, fault) <==> bytes.len() >= read.len()
                    && bytes.take(read.len() as int) == read,
            }
        }),
{
    let read = since(before, after);
    if bytes.len() >= read.len() {
        assert(bytes.take(read.len() as int) =~= bytes.subrange(0, read.len() as int));
    }
}

} // verus!
