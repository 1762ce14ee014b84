//! Byte sinks: where encoded output goes.
//!
//! A sink accepts contiguous runs of bytes and either takes a whole run or
//! reports a failure of its own kind. Its model is the sequence of bytes it
//! has accepted so far. A buffer in memory is a sink as it stands. Anything
//! else that takes bytes is a [`Writer`], of which nothing is known but that
//! it answers each write; [`Recorded`] makes a sink of it by keeping the
//! record of the writes that it acknowledged.
use vstd::prelude::*;

verus! {

/// How a sink's accepted bytes change over an attempt to write `data`.
///
/// A complete write leaves `before` followed by all of `data`. An attempt that
/// failed part-way leaves `before` followed by some leading part of `data`:
/// nothing accepted earlier is lost or reordered, and nothing foreign to
/// `data` is added.
pub open spec fn appended(before: Seq<u8>, after: Seq<u8>, data: Seq<u8>, complete: bool) -> bool {
    if complete {
        after == before + data
    } else {
        before.is_prefix_of(after) && after.is_prefix_of(before + data)
    }
}

/// Something that accepts bytes in order and may fail.
pub trait Sink {
    /// What this sink reports when it cannot accept a write.
    type Failure;

    /// All bytes accepted so far, oldest first.
    spec fn written(&self) -> Seq<u8>;

    /// Whether this sink vouches that no write to it fails.
    spec fn never_fails(&self) -> bool;

    /// Hands `buf` to the sink. On `Ok` every byte of `buf` was accepted, in
    /// order; on `Err` some leading part of it may have been.
    fn write_all(&mut self, buf: &[u8]) -> (r: Result<(), Self::Failure>)
        ensures
            appended(old(self).written(), final(self).written(), buf@, r is Ok),
            final(self).never_fails() == old(self).never_fails(),
            old(self).never_fails() ==> r is Ok,
    ;
}

/// A growable buffer in memory takes every write.
impl Sink for Vec<u8> {
    type Failure = core::convert::Infallible;

    open spec fn written(&self) -> Seq<u8> {
        self@
    }

    open spec fn never_fails(&self) -> bool {
        true
    }

    fn write_all(&mut self, buf: &[u8]) -> (r: Result<(), Self::Failure>) {
        self.extend_from_slice(buf);
        assert(self@ =~= old(self)@ + buf@);
        Ok(())
    }
}

/// Something that takes bytes and answers each write with success or with a
/// failure of its own kind: a file, a socket, a pipe. It has no model; what
/// it does with the bytes is its own affair.
pub trait Writer {
    /// What this writer reports when a write fails.
    type Failure;

    /// Hands the whole of `buf` to the writer.
    fn write_all(&mut self, buf: &[u8]) -> Result<(), Self::Failure>;
}

/// A writer together with the record of what it has acknowledged.
///
/// The record holds the bytes of every write that the writer answered with
/// success, in order. A write that failed adds nothing to it, whatever part
/// of that write the writer may have taken.
pub struct Recorded<W: Writer> {
    inner: W,
    acknowledged: Ghost<Seq<u8>>,
}

impl<W: Writer> Recorded<W> {
    /// The wrapped writer.
    pub closed spec fn writer(self) -> W {
        self.inner
    }

    /// The bytes of the writes acknowledged so far.
    pub closed spec fn acknowledged(self) -> Seq<u8> {
        self.acknowledged@
    }

    /// Wraps `inner` with an empty record.
    pub fn new(inner: W) -> (r: Self)
        ensures
            r.writer() == inner,
            r.acknowledged() == Seq::<u8>::empty(),
    {
        Recorded { inner: inner, acknowledged: Ghost(Seq::empty()) }
    }

    /// Gives the writer back.
    pub fn into_inner(self) -> (r: W)
        ensures
            r == self.writer(),
    {
        self.inner
    }
}

impl<W: Writer> Sink for Recorded<W> {
    type Failure = W::Failure;

    open spec fn written(&self) -> Seq<u8> {
        self.acknowledged()
    }

    open spec fn never_fails(&self) -> bool {
        false
    }

    /// Hands `buf` to the wrapped writer, once and as it is, and returns the
    /// writer's answer. A write that the writer acknowledged joins the
    /// record; one that it refused leaves the record as it was.
    fn write_all(&mut self, buf: &[u8]) -> (r: Result<(), Self::Failure>)
        ensures
            exists|handed: &mut W|
                *handed == old(self).writer() && *final(handed) == final(self).writer()
                    && #[trigger] call_ensures(<W as Writer>::write_all, (handed, buf), r),
            r is Ok ==> final(self).acknowledged() == old(self).acknowledged() + buf@,
            r is Err ==> final(self).acknowledged() == old(self).acknowledged(),
    {
        let r = self.inner.write_all(buf);
        proof {
            if r is Ok {
                self.acknowledged@ = self.acknowledged@ + buf@;
            }
            lemma_complete_is_partial(old(self).acknowledged@, old(self).acknowledged@ + buf@, buf@);
            assert(old(self).acknowledged@.subrange(0, old(self).acknowledged@.len() as int)
                =~= old(self).acknowledged@);
        }
        r
    }
}

/// A complete write is also a write of a leading part.
pub proof fn lemma_complete_is_partial(before: Seq<u8>, after: Seq<u8>, data: Seq<u8>)
    requires
        appended(before, after, data, true),
    ensures
        appended(before, after, data, false),
{
    assert((before + data).subrange(0, before.len() as int) =~= before);
}

/// Writes in sequence add up: after `done` went through completely, an
/// attempt on `chunk` is an attempt on any text that starts with `done` and
/// `chunk`; it is complete if `chunk` went through and nothing follows it.
pub proof fn lemma_appended_extends(
    start: Seq<u8>,
    done: Seq<u8>,
    chunk: Seq<u8>,
    rest: Seq<u8>,
    now: Seq<u8>,
    complete: bool,
)
    requires
        appended(start + done, now, chunk, complete),
    ensures
        appended(start, now, done + chunk + rest, complete && rest.len() == 0),
        complete ==> now == start + (done + chunk),
{
    let total = done + chunk + rest;
    if complete {
        assert(now =~= start + (done + chunk));
        if rest.len() == 0 {
            assert(total =~= done + chunk);
        }
    }
    lemma_complete_is_partial(start + done, start + done + chunk, chunk);
    assert(now.len() <= (start + done + chunk).len());
    assert(now =~= (start + done + chunk).subrange(0, now.len() as int)) by {
        if complete {
            assert(now == start + done + chunk);
        }
    }
    assert(start.is_prefix_of(now)) by {
        assert(start =~= (start + done).subrange(0, start.len() as int));
        assert(start =~= now.subrange(0, start.len() as int));
    }
    assert(now.is_prefix_of(start + total)) by {
        assert(now =~= (start + total).subrange(0, now.len() as int));
    }
}

} // verus!
