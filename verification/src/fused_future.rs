//! A future that remembers its output.
use core::future::Future;
use core::task::Poll;
use vstd::prelude::*;
use crate::dropped::dropped;

verus! {

/// A future together with the output it has come to.
pub enum FusedFuture<F> where F: Future {
    /// The future has not finished.
    Pending(F),
    /// The future has finished with this output.
    Ready(F::Output),
}

impl<F> FusedFuture<F> where F: Future {
    /// Wraps a future that has not been polled yet.
    pub fn new(future: F) -> (fused: Self)
        ensures
            fused == FusedFuture::<F>::Pending(future),
    {
        FusedFuture::Pending(future)
    }

    /// The output, if the future has finished. One that has not is dropped.
    pub fn into_output(self) -> (out: Poll<F::Output>)
        ensures
            out == (match self {
                FusedFuture::Ready(v) => Poll::Ready(v),
                FusedFuture::Pending(_) => Poll::Pending,
            }),
            self matches FusedFuture::Pending(future) ==> dropped(future),
    {
        match self {
            FusedFuture::Ready(v) => Poll::Ready(v),
            FusedFuture::Pending(future) => {
                drop(future);
                Poll::Pending
            },
        }
    }

    /// What the future is after its inner future answered `inner` to a poll.
    pub open spec fn polled(self, inner: Poll<F::Output>) -> Self {
        match (self, inner) {
            (FusedFuture::Pending(_), Poll::Ready(v)) => FusedFuture::Ready(v),
            _ => self,
        }
    }

    /// Takes the answer `inner` that the inner future gave to a poll and answers the poll of the
    /// whole.
    ///
    /// A future that finishes with this answer is dropped; its output takes its place. One that has
    /// finished before is not polled again: it keeps its output, and `inner`
    /// is not looked at.
    pub fn poll(&mut self, inner: Poll<F::Output>) -> (out: Poll<()>)
        ensures
            *final(self) == old(self).polled(inner),
            out == (if *final(self) is Ready {
                Poll::Ready(())
            } else {
                Poll::Pending
            }),
            *old(self) is Pending && inner is Ready ==> dropped(*old(self)),
    {
        if let FusedFuture::Ready(_) = self {
            return Poll::Ready(());
        }
        match inner {
            Poll::Ready(v) => {
                let mut before: FusedFuture<F> = FusedFuture::Ready(v);
                core::mem::swap(self, &mut before);
                drop(before);
                Poll::Ready(())
            },
            Poll::Pending => Poll::Pending,
        }
    }

    /// Takes the answer `inner` like [`FusedFuture::poll`], and answers whether the future has
    /// finished with it. One that had finished before has not.
    pub fn settle(&mut self, inner: Poll<F::Output>) -> (finished: bool)
        ensures
            *final(self) == old(self).polled(inner),
            finished == (*old(self) is Pending && inner is Ready),
            finished ==> dropped(*old(self)),
    {
        if let FusedFuture::Ready(_) = self {
            return false;
        }
        match self.poll(inner) {
            Poll::Ready(()) => true,
            Poll::Pending => false,
        }
    }
}

/// A future that has finished stays finished with the same output, whatever polls follow.
pub proof fn finished_stays_finished<F: Future>(fused: FusedFuture<F>, inner: Poll<F::Output>)
    requires
        fused is Ready,
    ensures
        fused.polled(inner) == fused,
{
}

/// A future that has not finished comes to exactly the output that it answers, and stays what it is
/// as long as it answers none.
pub proof fn an_answer_is_kept<F: Future>(fused: FusedFuture<F>, inner: Poll<F::Output>)
    ensures
        fused is Pending ==> (match inner {
            Poll::Ready(output) => fused.polled(inner) == FusedFuture::<F>::Ready(output),
            Poll::Pending => fused.polled(inner) == fused,
        }),
        fused is Ready ==> fused.polled(inner) == fused,
{
}

} // verus!
