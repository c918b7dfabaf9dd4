//! A transition-system model of the fixed-size worker pool.
//!
//! The pool itself lives on OS threads and an mpsc channel, outside what
//! the library can run; its coordination protocol is modelled here as a
//! state machine and verified. The states record which jobs are queued,
//! which worker is executing which job, which jobs have finished, and
//! which workers are still running. The transitions are the protocol's
//! events: a job is submitted, a worker receives a job from the channel, a
//! worker finishes its job, the sending side is dropped, and a worker
//! whose receive reports a closed and drained channel exits.
//!
//! The proved invariant partitions the submitted jobs: each is at every
//! moment either queued, executing on exactly one worker, or executed,
//! and teardown (channel closed, all workers exited) implies that every
//! submitted job was executed.

use vstd::prelude::*;

verus! {

/// A snapshot of the pool's protocol state. Jobs are numbered in
/// submission order; workers by their spawn index.
pub struct PoolState {
    /// The fixed worker count chosen at construction.
    pub size: nat,
    /// Whether the sending side of the job channel still exists.
    pub open: bool,
    /// The jobs accepted by the channel and not yet received, in FIFO
    /// order.
    pub queued: Seq<nat>,
    /// Which job each currently-executing worker is running.
    pub busy: Map<nat, nat>,
    /// The workers that have not yet exited their receive loop.
    pub live: Set<nat>,
    /// The jobs whose execution has completed.
    pub executed: Set<nat>,
    /// The number of jobs submitted so far; jobs are `0..submitted`.
    pub submitted: nat,
}

/// Pool construction accepts exactly the strictly positive sizes.
pub open spec fn construction_ok(size: nat) -> bool {
    size >= 1
}

/// The state right after construction: `size` idle workers, an empty
/// queue, the sending side alive.
pub open spec fn init(size: nat) -> PoolState {
    PoolState {
        size,
        open: true,
        queued: Seq::<nat>::empty(),
        busy: Map::<nat, nat>::empty(),
        live: Set::new(|w: nat| w < size),
        executed: Set::<nat>::empty(),
        submitted: 0,
    }
}

/// Is job `j` currently executing on some worker?
pub open spec fn running(s: PoolState, j: nat) -> bool {
    exists|w: nat| #[trigger] s.busy.dom().contains(w) && s.busy[w] == j
}

/// Exactly one of three.
pub open spec fn exactly_one(a: bool, b: bool, c: bool) -> bool {
    (a && !b && !c) || (!a && b && !c) || (!a && !b && c)
}

/// The pool invariant.
///
/// - workers executing or live are among the `size` spawned ones, and an
///   executing worker is live;
/// - no two workers execute the same job, and the queue holds no
///   duplicates;
/// - every submitted job is, at every moment, in exactly one of three
///   places: the queue, a worker, or the executed set — and only
///   submitted jobs appear anywhere;
/// - while the sending side exists no worker has exited, and once it is
///   dropped and every worker has exited, the queue is empty (a worker
///   only exits on a closed and drained channel).
pub open spec fn inv(s: PoolState) -> bool {
    &&& s.size >= 1
    &&& s.open ==> s.live =~= Set::new(|w: nat| w < s.size)
    &&& forall|w: nat| #[trigger] s.busy.dom().contains(w) ==> s.live.contains(w)
    &&& forall|w: nat| #[trigger] s.live.contains(w) ==> w < s.size
    &&& forall|w1: nat, w2: nat|
        #[trigger] s.busy.dom().contains(w1) && #[trigger] s.busy.dom().contains(w2)
            && s.busy[w1] == s.busy[w2] ==> w1 == w2
    &&& s.queued.no_duplicates()
    &&& forall|i: int| 0 <= i < s.queued.len() ==> #[trigger] s.queued[i] < s.submitted
    &&& forall|w: nat| #[trigger] s.busy.dom().contains(w) ==> s.busy[w] < s.submitted
    &&& forall|j: nat| #[trigger] s.executed.contains(j) ==> j < s.submitted
    &&& forall|j: nat|
        j < s.submitted ==> exactly_one(
            s.queued.contains(j),
            running(s, j),
            #[trigger] s.executed.contains(j),
        )
    &&& (!s.open && s.live.is_empty()) ==> s.queued.len() == 0
}

/// Submitting is possible while the sending side exists.
pub open spec fn submit_enabled(s: PoolState) -> bool {
    s.open
}

/// A new job is accepted by the channel: it joins the back of the queue.
pub open spec fn submit(s: PoolState) -> PoolState {
    PoolState {
        queued: s.queued.push(s.submitted),
        submitted: s.submitted + 1,
        ..s
    }
}

/// Worker `w` can receive when it is live, idle, and a job is queued.
pub open spec fn receive_enabled(s: PoolState, w: nat) -> bool {
    s.live.contains(w) && !s.busy.dom().contains(w) && s.queued.len() > 0
}

/// Worker `w` receives the job at the front of the queue and starts
/// executing it. The receiver mutex is released before execution, so
/// other workers may receive while `w` executes.
pub open spec fn receive(s: PoolState, w: nat) -> PoolState {
    PoolState { queued: s.queued.skip(1), busy: s.busy.insert(w, s.queued[0]), ..s }
}

/// Worker `w` can finish when it is executing.
pub open spec fn finish_enabled(s: PoolState, w: nat) -> bool {
    s.busy.dom().contains(w)
}

/// Worker `w` finishes its job and becomes idle again.
pub open spec fn finish(s: PoolState, w: nat) -> PoolState {
    PoolState { busy: s.busy.remove(w), executed: s.executed.insert(s.busy[w]), ..s }
}

/// Teardown begins by dropping the sending side, exactly once.
pub open spec fn close_enabled(s: PoolState) -> bool {
    s.open
}

/// The sending side is dropped: no further submission is possible.
pub open spec fn close(s: PoolState) -> PoolState {
    PoolState { open: false, ..s }
}

/// Worker `w` exits its receive loop only when its receive reports the
/// channel closed and drained, and it is not in the middle of a job.
pub open spec fn exit_enabled(s: PoolState, w: nat) -> bool {
    !s.open && s.queued.len() == 0 && s.live.contains(w) && !s.busy.dom().contains(w)
}

/// Worker `w` exits; joining its thread then returns.
pub open spec fn exit(s: PoolState, w: nat) -> PoolState {
    PoolState { live: s.live.remove(w), ..s }
}

/// Construction with any strictly positive size establishes the
/// invariant; size zero is rejected at construction time.
pub proof fn lemma_init_inv(size: nat)
    requires
        construction_ok(size),
    ensures
        inv(init(size)),
{
}

/// Submission preserves the invariant.
pub proof fn lemma_submit_inv(s: PoolState)
    requires
        inv(s),
        submit_enabled(s),
    ensures
        inv(submit(s)),
{
    let t = submit(s);
    assert forall|j: nat| j < t.submitted implies exactly_one(
        t.queued.contains(j),
        running(t, j),
        #[trigger] t.executed.contains(j),
    ) by {
        if j < s.submitted {
            assert(exactly_one(s.queued.contains(j), running(s, j), s.executed.contains(j)));
            assert(t.queued.contains(j) == s.queued.contains(j)) by {
                if s.queued.contains(j) {
                    let i = choose|i: int| 0 <= i < s.queued.len() && s.queued[i] == j;
                    assert(t.queued[i] == j);
                }
                if t.queued.contains(j) {
                    let i = choose|i: int| 0 <= i < t.queued.len() && t.queued[i] == j;
                    assert(i < s.queued.len());
                    assert(s.queued[i] == j);
                }
            }
            assert(running(t, j) == running(s, j)) by {
                if running(s, j) {
                    let w = choose|w: nat| #[trigger] s.busy.dom().contains(w) && s.busy[w] == j;
                    assert(t.busy.dom().contains(w) && t.busy[w] == j);
                }
                if running(t, j) {
                    let w = choose|w: nat| #[trigger] t.busy.dom().contains(w) && t.busy[w] == j;
                    assert(s.busy.dom().contains(w) && s.busy[w] == j);
                }
            }
        } else {
            assert(j == s.submitted);
            assert(t.queued.contains(j)) by {
                assert(t.queued[s.queued.len() as int] == j);
            }
            assert(!running(t, j)) by {
                if running(t, j) {
                    let w = choose|w: nat| #[trigger] t.busy.dom().contains(w) && t.busy[w] == j;
                    assert(s.busy.dom().contains(w) && s.busy[w] == j);
                }
            }
            assert(!t.executed.contains(j));
        }
    }
    assert(t.queued.no_duplicates()) by {
        assert(forall|i: int|
            0 <= i < s.queued.len() ==> t.queued[i] == #[trigger] s.queued[i]);
        assert(forall|i: int, k: int|
            0 <= i < t.queued.len() && 0 <= k < t.queued.len() && i != k ==> #[trigger] t.queued[i]
                != #[trigger] t.queued[k]);
    }
    assert(forall|i: int| 0 <= i < t.queued.len() ==> #[trigger] t.queued[i] < t.submitted);
}

/// Receiving preserves the invariant: the front job moves from the queue
/// to exactly one worker.
pub proof fn lemma_receive_inv(s: PoolState, w: nat)
    requires
        inv(s),
        receive_enabled(s, w),
    ensures
        inv(receive(s, w)),
{
    let t = receive(s, w);
    let j0 = s.queued[0];
    assert(s.queued.contains(j0));
    assert(j0 < s.submitted);
    assert(exactly_one(s.queued.contains(j0), running(s, j0), s.executed.contains(j0)));
    assert(!running(s, j0));
    assert forall|w1: nat, w2: nat|
        #[trigger] t.busy.dom().contains(w1) && #[trigger] t.busy.dom().contains(w2) && t.busy[w1]
            == t.busy[w2] implies w1 == w2 by {
        if w1 != w2 {
            if w1 == w {
                assert(s.busy.dom().contains(w2) && s.busy[w2] == j0);
                assert(running(s, j0));
            } else if w2 == w {
                assert(s.busy.dom().contains(w1) && s.busy[w1] == j0);
                assert(running(s, j0));
            } else {
                assert(s.busy.dom().contains(w1) && s.busy.dom().contains(w2));
            }
        }
    }
    assert forall|j: nat| j < t.submitted implies exactly_one(
        t.queued.contains(j),
        running(t, j),
        #[trigger] t.executed.contains(j),
    ) by {
        assert(exactly_one(s.queued.contains(j), running(s, j), s.executed.contains(j)));
        if j == j0 {
            assert(!t.queued.contains(j)) by {
                if t.queued.contains(j) {
                    let i = choose|i: int| 0 <= i < t.queued.len() && t.queued[i] == j;
                    assert(s.queued[i + 1] == j);
                    assert(s.queued[0] == j);
                }
            }
            assert(running(t, j)) by {
                assert(t.busy.dom().contains(w) && t.busy[w] == j);
            }
            assert(exactly_one(s.queued.contains(j), running(s, j), s.executed.contains(j)));
            assert(!s.executed.contains(j));
        } else {
            assert(t.queued.contains(j) == s.queued.contains(j)) by {
                if s.queued.contains(j) {
                    let i = choose|i: int| 0 <= i < s.queued.len() && s.queued[i] == j;
                    assert(i != 0);
                    assert(t.queued[i - 1] == j);
                }
                if t.queued.contains(j) {
                    let i = choose|i: int| 0 <= i < t.queued.len() && t.queued[i] == j;
                    assert(s.queued[i + 1] == j);
                }
            }
            assert(running(t, j) == running(s, j)) by {
                if running(s, j) {
                    let w2 = choose|w2: nat|
                        #[trigger] s.busy.dom().contains(w2) && s.busy[w2] == j;
                    assert(w2 != w);
                    assert(t.busy.dom().contains(w2) && t.busy[w2] == j);
                }
                if running(t, j) {
                    let w2 = choose|w2: nat|
                        #[trigger] t.busy.dom().contains(w2) && t.busy[w2] == j;
                    assert(w2 != w);
                    assert(s.busy.dom().contains(w2) && s.busy[w2] == j);
                }
            }
        }
    }
    assert(t.queued.no_duplicates()) by {
        assert(forall|i: int, k: int|
            0 <= i < t.queued.len() && 0 <= k < t.queued.len() && i != k ==> #[trigger] t.queued[i]
                != #[trigger] t.queued[k]) by {
            assert(forall|i: int|
                0 <= i < t.queued.len() ==> #[trigger] t.queued[i] == s.queued[i + 1]);
        }
    }
    assert(forall|i: int| 0 <= i < t.queued.len() ==> #[trigger] t.queued[i] < t.submitted) by {
        assert(forall|i: int|
            0 <= i < t.queued.len() ==> #[trigger] t.queued[i] == s.queued[i + 1]);
    }
}

/// Finishing preserves the invariant: the worker's job moves to the
/// executed set, exactly once.
pub proof fn lemma_finish_inv(s: PoolState, w: nat)
    requires
        inv(s),
        finish_enabled(s, w),
    ensures
        inv(finish(s, w)),
{
    let t = finish(s, w);
    let j0 = s.busy[w];
    assert(running(s, j0));
    assert forall|j: nat| j < t.submitted implies exactly_one(
        t.queued.contains(j),
        running(t, j),
        #[trigger] t.executed.contains(j),
    ) by {
        assert(exactly_one(s.queued.contains(j), running(s, j), s.executed.contains(j)));
        if j == j0 {
            assert(!running(t, j)) by {
                if running(t, j) {
                    let w2 = choose|w2: nat|
                        #[trigger] t.busy.dom().contains(w2) && t.busy[w2] == j;
                    assert(w2 != w);
                    assert(s.busy.dom().contains(w2) && s.busy[w2] == j);
                    assert(w2 == w);
                }
            }
        } else {
            assert(running(t, j) == running(s, j)) by {
                if running(s, j) {
                    let w2 = choose|w2: nat|
                        #[trigger] s.busy.dom().contains(w2) && s.busy[w2] == j;
                    assert(w2 != w);
                    assert(t.busy.dom().contains(w2) && t.busy[w2] == j);
                }
                if running(t, j) {
                    let w2 = choose|w2: nat|
                        #[trigger] t.busy.dom().contains(w2) && t.busy[w2] == j;
                    assert(s.busy.dom().contains(w2) && s.busy[w2] == j);
                }
            }
        }
    }
}

/// Dropping the sending side preserves the invariant.
pub proof fn lemma_close_inv(s: PoolState)
    requires
        inv(s),
        close_enabled(s),
    ensures
        inv(close(s)),
{
    let t = close(s);
    assert forall|j: nat| #[trigger] running(t, j) == running(s, j) by {
        if running(s, j) {
            let w = choose|w: nat| #[trigger] s.busy.dom().contains(w) && s.busy[w] == j;
            assert(t.busy.dom().contains(w) && t.busy[w] == j);
        }
        if running(t, j) {
            let w = choose|w: nat| #[trigger] t.busy.dom().contains(w) && t.busy[w] == j;
            assert(s.busy.dom().contains(w) && s.busy[w] == j);
        }
    }
    // while the pool was open every worker was live, so right after the
    // drop none has exited yet and the drained-queue conjunct is vacuous
    assert(s.live.contains(0));
    assert(!t.live.is_empty());
}

/// A worker's exit preserves the invariant.
pub proof fn lemma_exit_inv(s: PoolState, w: nat)
    requires
        inv(s),
        exit_enabled(s, w),
    ensures
        inv(exit(s, w)),
{
    let t = exit(s, w);
    assert forall|j: nat| #[trigger] running(t, j) == running(s, j) by {
        if running(s, j) {
            let w2 = choose|w2: nat| #[trigger] s.busy.dom().contains(w2) && s.busy[w2] == j;
            assert(t.busy.dom().contains(w2) && t.busy[w2] == j);
        }
        if running(t, j) {
            let w2 = choose|w2: nat| #[trigger] t.busy.dom().contains(w2) && t.busy[w2] == j;
            assert(s.busy.dom().contains(w2) && s.busy[w2] == j);
        }
    }
}

/// When teardown has completed — the sending side dropped and every
/// worker exited — the queue is drained, no worker is executing, and
/// every submitted job has been executed, each exactly once.
pub proof fn lemma_teardown_complete(s: PoolState)
    requires
        inv(s),
        !s.open,
        s.live.is_empty(),
    ensures
        s.queued.len() == 0,
        s.busy.dom() =~= Set::<nat>::empty(),
        forall|j: nat| j < s.submitted <==> s.executed.contains(j),
{
    assert forall|w: nat| !(#[trigger] s.busy.dom().contains(w)) by {
        if s.busy.dom().contains(w) {
            assert(s.live.contains(w));
        }
    }
    assert forall|j: nat| j < s.submitted implies s.executed.contains(j) by {
        assert(exactly_one(s.queued.contains(j), running(s, j), s.executed.contains(j)));
        if running(s, j) {
            let w = choose|w: nat| #[trigger] s.busy.dom().contains(w) && s.busy[w] == j;
            assert(false);
        }
    }
}

/// Two idle workers of a pool with two queued jobs can both be executing
/// at once, on distinct jobs: the mutex around the receiver does not
/// serialize execution.
pub proof fn lemma_execution_may_overlap(s: PoolState, w1: nat, w2: nat)
    requires
        inv(s),
        w1 != w2,
        s.live.contains(w1),
        !s.busy.dom().contains(w1),
        s.live.contains(w2),
        !s.busy.dom().contains(w2),
        s.queued.len() >= 2,
    ensures
        ({
            let t = receive(receive(s, w1), w2);
            &&& receive_enabled(s, w1)
            &&& receive_enabled(receive(s, w1), w2)
            &&& inv(t)
            &&& t.busy.dom().contains(w1)
            &&& t.busy.dom().contains(w2)
            &&& t.busy[w1] != t.busy[w2]
        }),
{
    lemma_receive_inv(s, w1);
    let s1 = receive(s, w1);
    lemma_receive_inv(s1, w2);
    let t = receive(s1, w2);
    assert(s1.queued[0] == s.queued[1]);
    assert(s.queued[0] != s.queued[1]);
    assert(t.busy[w1] == s.queued[0]);
    assert(t.busy[w2] == s.queued[1]);
}

/// A complete life of a pool of two workers and two jobs, showing that
/// the other laws' hypotheses describe reachable states: both jobs are
/// received and execute at the same time on distinct workers, the sending
/// side is dropped, both workers exit, and the completed teardown finds
/// every submitted job executed.
pub proof fn lemma_pool_lifecycle_reachable()
    ensures
        ({
            let s = exit(
                exit(
                    close(finish(finish(receive(receive(submit(submit(init(2))), 0), 1), 0), 1)),
                    0,
                ),
                1,
            );
            &&& inv(s)
            &&& !s.open
            &&& s.live.is_empty()
            &&& s.submitted == 2
            &&& forall|j: nat| j < 2 ==> s.executed.contains(j)
        }),
{
    let s0 = init(2);
    lemma_init_inv(2);
    assert(submit_enabled(s0));
    let s1 = submit(s0);
    lemma_submit_inv(s0);
    assert(submit_enabled(s1));
    let s2 = submit(s1);
    lemma_submit_inv(s1);
    assert(s2.live.contains(0) && s2.live.contains(1));
    assert(s2.queued =~= seq![0nat, 1nat]);
    assert(receive_enabled(s2, 0));
    let s3 = receive(s2, 0);
    lemma_receive_inv(s2, 0);
    assert(s3.queued =~= seq![1nat]);
    assert(receive_enabled(s3, 1));
    let s4 = receive(s3, 1);
    lemma_receive_inv(s3, 1);
    // here both workers execute at once
    assert(s4.busy.dom().contains(0) && s4.busy.dom().contains(1));
    assert(finish_enabled(s4, 0));
    let s5 = finish(s4, 0);
    lemma_finish_inv(s4, 0);
    assert(finish_enabled(s5, 1));
    let s6 = finish(s5, 1);
    lemma_finish_inv(s5, 1);
    assert(close_enabled(s6));
    let s7 = close(s6);
    lemma_close_inv(s6);
    assert(s7.queued =~= Seq::<nat>::empty());
    assert(exit_enabled(s7, 0));
    let s8 = exit(s7, 0);
    lemma_exit_inv(s7, 0);
    assert(exit_enabled(s8, 1));
    let s9 = exit(s8, 1);
    lemma_exit_inv(s8, 1);
    assert(s9.live =~= Set::<nat>::empty());
    lemma_teardown_complete(s9);
}

} // verus!
