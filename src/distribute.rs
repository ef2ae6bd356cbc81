use vstd::prelude::*;
use crate::align::Alignment;
use crate::error::RunError;

verus! {

/// Hands out each chunk once, in order. Workers that share it guard it with
/// a lock; each claim is one call of `claim_next`.
pub struct AlignmentStream {
    inner: Vec<Alignment>,
    idx: usize,
}

impl AlignmentStream {
    /// The chunks in the order they are handed out.
    pub closed spec fn chunks(&self) -> Seq<Alignment> {
        self.inner@
    }

    /// How many chunks have been handed out.
    pub closed spec fn claimed(&self) -> nat {
        self.idx as nat
    }

    pub closed spec fn wf(&self) -> bool {
        self.idx <= self.inner@.len()
    }

    pub fn new(inner: Vec<Alignment>) -> (r: Self)
        ensures
            r.wf(),
            r.chunks() == inner@,
            r.claimed() == 0,
    {
        AlignmentStream { inner, idx: 0 }
    }

    /// The next chunk not yet handed out, or `None` once all have been.
    pub fn claim_next(&mut self) -> (r: Option<Alignment>)
        requires
            old(self).wf(),
        ensures
            final(self).wf(),
            final(self).chunks() == old(self).chunks(),
            old(self).claimed() < old(self).chunks().len() ==> r == Some(old(self).chunks()[old(self).claimed() as int])
                && final(self).claimed() == old(self).claimed() + 1,
            old(self).claimed() >= old(self).chunks().len() ==> r is None && final(self).claimed() == old(self).claimed(),
    {
        if self.idx < self.inner.len() {
            let out = self.inner[self.idx];
            self.idx = self.idx + 1;
            Some(out)
        } else {
            None
        }
    }

    /// Chunks handed out so far, and the total.
    pub fn size_hint(&self) -> (r: (usize, Option<usize>))
        ensures
            r.0 as nat == self.claimed(),
            r.1 == Some(self.chunks().len() as usize),
    {
        (self.idx, Some(self.inner.len()))
    }

    pub fn len(&self) -> (r: usize)
        ensures
            r as nat == self.chunks().len(),
    {
        self.inner.len()
    }
}

/// A positioned read of a chunk must return every byte of it; fewer bytes
/// mean that the file changed under the run.
pub fn check_chunk_read(chunk: Alignment, got: u64) -> (r: Result<(), RunError>)
    requires
        chunk.start <= chunk.end,
    ensures
        got == chunk.end - chunk.start ==> r is Ok,
        got != chunk.end - chunk.start ==> r == Err::<(), RunError>(
            RunError::ShortRead { start: chunk.start, expected: (chunk.end - chunk.start) as u64, got },
        ),
{
    let expected: u64 = chunk.end - chunk.start;
    if got == expected {
        Ok(())
    } else {
        Err(RunError::ShortRead { start: chunk.start, expected, got })
    }
}

/// Claiming until exhaustion hands out every chunk exactly once, in order.
pub fn claim_all(stream: &mut AlignmentStream) -> (r: Vec<Alignment>)
    requires
        old(stream).wf(),
    ensures
        r@ == old(stream).chunks().subrange(old(stream).claimed() as int, old(stream).chunks().len() as int),
        final(stream).wf(),
        final(stream).claimed() == final(stream).chunks().len(),
{
    let mut out: Vec<Alignment> = Vec::new();
    let ghost start = stream.claimed() as int;
    let ghost all = stream.chunks();
    loop
        invariant
            stream.wf(),
            stream.chunks() == all,
            all == old(stream).chunks(),
            start == old(stream).claimed(),
            start <= stream.claimed() <= all.len(),
            out@ == all.subrange(start, stream.claimed() as int),
        ensures
            stream.wf(),
            stream.chunks() == all,
            stream.claimed() == all.len(),
            out@ == all.subrange(start, all.len() as int),
        decreases all.len() - stream.claimed(),
    {
        let ghost before = stream.claimed() as int;
        match stream.claim_next() {
            Some(c) => {
                out.push(c);
                proof {
                    assert(out@ =~= all.subrange(start, stream.claimed() as int));
                }
            },
            None => {
                break;
            },
        }
    }
    out
}

} // verus!
