use vstd::prelude::*;

verus! {

/// A worker id is a pair: (the worker's own index, the total number of workers).
pub type ThreadId = (usize, usize);

/// Returned by `gather` when a dispatched task's result could not be
/// collected.  Dispatch in this pool is deterministic, so the contracts below
/// show that this error is in fact never produced.
#[derive(Debug, PartialEq, Eq, Structural)]
pub struct GatherError;

/// Holds the results of one round of dispatched tasks until the caller
/// collects them with `gather`.
pub struct MassReceiver<R> {
    results: Vec<R>,
}

impl<R> View for MassReceiver<R> {
    type V = Seq<R>;

    /// The pending results, in worker-index order.
    closed spec fn view(&self) -> Seq<R> {
        self.results@
    }
}

impl<R> MassReceiver<R> {
    /// Blocks until every dispatched task has reported, then yields the
    /// results in worker-index order.  Every dispatched task reports exactly
    /// one result, so gathering always succeeds.
    pub fn gather(self) -> (r: Result<Vec<R>, GatherError>)
        ensures
            r matches Ok(v) && v@ == self@,
    {
        Ok(self.results)
    }
}

/// A fixed set of workers that execute one-shot (function, argument) tasks.
/// One worker always runs inline on the calling thread; the pool's contracts
/// describe only the per-task input/output relation, so callers are correct
/// for any schedule that delivers each task to its worker exactly once.
pub struct ThreadPool {
    num_threads: usize,
}

impl ThreadPool {
    /// How many workers the pool was built with.
    pub closed spec fn threads(&self) -> usize {
        self.num_threads
    }

    /// A pool always holds at least the inline worker.
    #[verifier::type_invariant]
    pub open spec fn wf(&self) -> bool {
        self.threads() >= 1
    }

    /// Builds a pool of `num_threads` workers; the pool is never resized.
    pub fn new(num_threads: usize) -> (pool: ThreadPool)
        requires
            num_threads >= 1,
        ensures
            pool.threads() == num_threads,
    {
        ThreadPool { num_threads }
    }

    pub fn num_threads(&self) -> (n: usize)
        ensures
            n == self.threads(),
            n >= 1,
    {
        proof {
            use_type_invariant(self);
        }
        self.num_threads
    }

    /// Dispatches one message per worker, in index order: worker `i` runs
    /// `function((i, total), msgs[i])`.  At most one message per worker may be
    /// handed in.  The receiver holds one result per message, in worker-index
    /// order, each related to its message by the function's contract.
    pub fn sendall<S, R, F: Fn(ThreadId, S) -> R>(&self, msgs: Vec<S>, function: F) -> (m:
        MassReceiver<R>)
        requires
            msgs@.len() <= self.threads(),
            forall|i: int|
                0 <= i < msgs@.len() ==> call_requires(
                    function,
                    ((i as usize, self.threads()), msgs@[i]),
                ),
        ensures
            m@.len() == msgs@.len(),
            forall|i: int|
                0 <= i < msgs@.len() ==> call_ensures(
                    function,
                    ((i as usize, self.threads()), msgs@[i]),
                    #[trigger] m@[i],
                ),
    {
        let ghost orig = msgs@;
        let mut msgs = msgs;
        let count = msgs.len();
        let mut results: Vec<R> = Vec::new();
        let mut i: usize = 0;
        while i < count
            invariant
                i + msgs@.len() == count,
                count == orig.len(),
                msgs@ == orig.subrange(i as int, count as int),
                results@.len() == i,
                count <= self.threads(),
                forall|j: int|
                    0 <= j < count ==> call_requires(
                        function,
                        ((j as usize, self.threads()), orig[j]),
                    ),
                forall|j: int|
                    0 <= j < i ==> call_ensures(
                        function,
                        ((j as usize, self.threads()), orig[j]),
                        #[trigger] results@[j],
                    ),
            decreases count - i,
        {
            let msg = msgs.remove(0);
            assert(msg == orig[i as int]);
            let r = function((i, self.num_threads), msg);
            results.push(r);
            i += 1;
        }
        MassReceiver { results }
    }

    /// Hands the same message to every worker by shared reference: worker `i`
    /// runs `function((i, total), msg)`.  The receiver holds one result per
    /// worker, in worker-index order.
    pub fn broadcast<'a, S, R, F: Fn(ThreadId, &'a S) -> R>(&self, msg: &'a S, function: F) -> (m:
        MassReceiver<R>)
        requires
            forall|i: usize|
                i < self.threads() ==> call_requires(function, ((i, self.threads()), msg)),
        ensures
            m@.len() == self.threads(),
            forall|i: int|
                0 <= i < self.threads() ==> call_ensures(
                    function,
                    ((i as usize, self.threads()), msg),
                    #[trigger] m@[i],
                ),
    {
        let mut results: Vec<R> = Vec::new();
        let mut i: usize = 0;
        while i < self.num_threads
            invariant
                results@.len() == i,
                i <= self.threads(),
                forall|j: usize|
                    j < self.threads() ==> call_requires(function, ((j, self.threads()), msg)),
                forall|j: int|
                    0 <= j < i ==> call_ensures(
                        function,
                        ((j as usize, self.threads()), msg),
                        #[trigger] results@[j],
                    ),
            decreases self.threads() - i,
        {
            let r = function((i, self.num_threads), msg);
            results.push(r);
            i += 1;
        }
        MassReceiver { results }
    }
}

} // verus!
