//! The engine: the window buffer and the rank tracker under the update
//! protocol. For each incoming value the eviction, if any, is applied
//! before the insertion, so the indices never reflect more than the window
//! capacity of live entries, and a value that evicts its own duplicate
//! nets to an unchanged count.

use crate::tracker::{lemma_sync, RankTracker};
use crate::window::{push_to_window, window_limit, window_model, window_new};
use bounded_vec_deque::BoundedVecDeque;
use vstd::prelude::*;

verus! {

// ---------------------------------------------------------------------------
// The mathematical model of the window.
// ---------------------------------------------------------------------------

/// The number of occurrences of a value in a window.
pub open spec fn occ(s: Seq<Seq<char>>, v: Seq<char>) -> nat
    decreases s.len(),
{
    if s.len() == 0 {
        0
    } else {
        (occ(s.drop_last(), v) + if s.last() == v {
            1nat
        } else {
            0nat
        }) as nat
    }
}

/// One step of the window: the new value enters at the tail, and the head
/// leaves first when the window is full.
pub open spec fn window_step(w: Seq<Seq<char>>, cap: nat, v: Seq<char>) -> Seq<Seq<char>> {
    if w.len() < cap {
        w.push(v)
    } else {
        w.drop_first().push(v)
    }
}

/// The window contents after feeding a whole sequence of values into a
/// fresh engine of the given capacity.
pub open spec fn window_after(cap: nat, inputs: Seq<Seq<char>>) -> Seq<Seq<char>>
    decreases inputs.len(),
{
    if inputs.len() == 0 {
        Seq::empty()
    } else {
        window_step(window_after(cap, inputs.drop_last()), cap, inputs.last())
    }
}

proof fn lemma_occ_push(s: Seq<Seq<char>>, x: Seq<char>, v: Seq<char>)
    ensures
        occ(s.push(x), v) == occ(s, v) + if x == v {
            1nat
        } else {
            0nat
        },
{
    assert(s.push(x).drop_last() =~= s);
    assert(s.push(x).last() == x);
}

proof fn lemma_occ_drop_first(s: Seq<Seq<char>>, v: Seq<char>)
    requires
        s.len() >= 1,
    ensures
        occ(s, v) == occ(s.drop_first(), v) + if s[0] == v {
            1nat
        } else {
            0nat
        },
    decreases s.len(),
{
    if s.len() == 1 {
        assert(s.drop_first() =~= Seq::<Seq<char>>::empty());
        assert(s.drop_last() =~= Seq::<Seq<char>>::empty());
        assert(s.last() == s[0]);
    } else {
        let t = s.drop_last();
        lemma_occ_drop_first(t, v);
        assert(t.drop_first() =~= s.drop_first().drop_last());
        assert(t[0] == s[0]);
        assert(s.drop_first().last() == s.last());
        assert(s.drop_first().len() >= 1);
    }
}

proof fn lemma_occ_le_len(s: Seq<Seq<char>>, v: Seq<char>)
    ensures
        occ(s, v) <= s.len(),
    decreases s.len(),
{
    if s.len() > 0 {
        lemma_occ_le_len(s.drop_last(), v);
    }
}

/// The window holds the last `min(cap, n)` of the `n` values fed so far.
proof fn lemma_window_after_len(cap: nat, inputs: Seq<Seq<char>>)
    requires
        cap >= 1,
    ensures
        window_after(cap, inputs).len() == if cap <= inputs.len() {
            cap
        } else {
            inputs.len()
        },
    decreases inputs.len(),
{
    if inputs.len() > 0 {
        lemma_window_after_len(cap, inputs.drop_last());
    }
}

// ---------------------------------------------------------------------------
// The engine.
// ---------------------------------------------------------------------------

/// The windowed frequency-ranking engine: a bounded FIFO of the last `W`
/// values, a counter from value to in-window count, and a rank index from
/// count to the bucket of values sharing it.
pub struct Engine {
    window: BoundedVecDeque<String>,
    tracker: RankTracker,
    inputs: Ghost<Seq<Seq<char>>>,
}

impl Engine {
    /// The configured window capacity `W`.
    pub closed spec fn cap(self) -> nat {
        window_limit(self.window)
    }

    /// The values currently in the window, oldest first.
    pub closed spec fn win(self) -> Seq<Seq<char>> {
        window_model(self.window)
    }

    /// Every value processed so far, in order.
    pub closed spec fn fed(self) -> Seq<Seq<char>> {
        self.inputs@
    }

    /// The in-window count tracked for a value.
    pub closed spec fn count(self, v: Seq<char>) -> nat {
        self.tracker.count(v)
    }

    /// Whether the value stands in the rank-index bucket of the count.
    pub closed spec fn ranked_at(self, c: nat, v: Seq<char>) -> bool {
        self.tracker.ranked_at(c, v)
    }

    /// The sum of all tracked counts.
    pub closed spec fn total_count(self) -> nat {
        self.tracker.total()
    }

    /// Well-formedness: the tracker is synchronized, the window holds the
    /// trailing values fed so far, and each tracked count is exactly the
    /// number of window slots its value occupies.
    pub closed spec fn wf(self) -> bool {
        &&& self.tracker.wf()
        &&& 1 <= self.cap() <= usize::MAX
        &&& self.win() == window_after(self.cap(), self.fed())
        &&& self.win().len() <= self.cap()
        &&& forall|v: Seq<char>| #[trigger] self.tracker.count(v) == occ(self.win(), v)
        &&& self.tracker.total() == self.win().len()
    }

    /// A fresh engine with the given positive window capacity: nothing fed,
    /// nothing counted, no bucket.
    pub fn new(winsize: usize) -> (e: Engine)
        requires
            winsize >= 1,
        ensures
            e.wf(),
            e.cap() == winsize as nat,
            e.fed() == Seq::<Seq<char>>::empty(),
    {
        let window = window_new(winsize);
        let tracker = RankTracker::new();
        let e = Engine { window, tracker, inputs: Ghost(Seq::empty()) };
        proof {
            assert forall|v: Seq<char>| #[trigger] e.tracker.count(v) == occ(e.win(), v) by {
                assert(e.tracker.count(v) == 0);
            }
        }
        e
    }

    /// Processes one extracted value: pushes it into the window, applies the
    /// exit for the evicted value first (if the window was full), then the
    /// enter for the new value.
    pub fn process(&mut self, value: &str)
        requires
            old(self).wf(),
        ensures
            final(self).wf(),
            final(self).cap() == old(self).cap(),
            final(self).fed() == old(self).fed().push(value@),
    {
        let ghost w0 = self.win();
        let ghost capg = self.cap();
        let ghost fed0 = self.fed();
        let evicted = push_to_window(&mut self.window, value.to_owned());
        self.inputs = Ghost(self.inputs@.push(value@));
        let ghost w1 = window_model(self.window);
        proof {
            assert(self.fed().drop_last() =~= fed0);
            assert(self.fed().last() == value@);
            assert(window_after(capg, self.fed()) == window_step(w0, capg, value@));
        }
        match evicted {
            Some(gone) => {
                proof {
                    assert(w0.len() >= capg >= 1);
                    assert(w1 == w0.drop_first().push(value@));
                    assert(gone@ == w0[0]);
                    lemma_occ_drop_first(w0, gone@);
                    assert(self.tracker.count(gone@) == occ(w0, gone@));
                    assert(self.tracker.count(gone@) >= 1);
                }
                let r = self.tracker.update_count_exitwin(gone.as_str());
                match r {
                    Ok(_) => {},
                    Err(_) => {
                        proof {
                            assert(false);
                        }
                    },
                }
                proof {
                    let mid = w0.drop_first();
                    assert forall|v: Seq<char>| #[trigger] self.tracker.count(v) == occ(
                        mid,
                        v,
                    ) by {
                        lemma_occ_drop_first(w0, v);
                        if v == gone@ {
                        } else {
                            assert(self.tracker.count(v) == occ(w0, v));
                        }
                    }
                    lemma_occ_le_len(mid, value@);
                    assert(self.tracker.count(value@) <= mid.len() < usize::MAX);
                }
                self.tracker.update_count_enterwin(value);
                proof {
                    let mid = w0.drop_first();
                    assert forall|v: Seq<char>| #[trigger] self.tracker.count(v) == occ(
                        w1,
                        v,
                    ) by {
                        lemma_occ_push(mid, value@, v);
                        if v == value@ {
                        } else {
                            assert(self.tracker.count(v) == occ(mid, v));
                        }
                    }
                    assert(w1.len() == w0.len());
                }
            },
            None => {
                proof {
                    assert(w0.len() < capg);
                    assert(w1 == w0.push(value@));
                    lemma_occ_le_len(w0, value@);
                    assert(self.tracker.count(value@) == occ(w0, value@));
                    assert(self.tracker.count(value@) < usize::MAX);
                }
                self.tracker.update_count_enterwin(value);
                proof {
                    assert forall|v: Seq<char>| #[trigger] self.tracker.count(v) == occ(
                        w1,
                        v,
                    ) by {
                        lemma_occ_push(w0, value@, v);
                        if v == value@ {
                        } else {
                            assert(self.tracker.count(v) == occ(w0, v));
                        }
                    }
                }
            },
        }
    }

    /// The full ranking, for reporting: (count, bucket) pairs in strictly
    /// ascending count order, every bucket non-empty, and each current
    /// member of a bucket listed exactly once.
    pub fn snapshot(&self) -> (r: &Vec<(usize, Vec<String>)>)
        requires
            self.wf(),
        ensures
            forall|i: int, j: int| 0 <= i < j < r@.len() ==> #[trigger] r@[i].0 < #[trigger] r@[j].0,
            forall|i: int| 0 <= i < r@.len() ==> #[trigger] r@[i].1@.len() >= 1,
            forall|i: int, a: int, b: int|
                0 <= i < r@.len() && 0 <= a < b < r@[i].1@.len() ==> #[trigger] r@[i].1@[a]@
                    != #[trigger] r@[i].1@[b]@,
            forall|i: int, k: int|
                0 <= i < r@.len() && 0 <= k < r@[i].1@.len() ==> self.ranked_at(
                    r@[i].0 as nat,
                    #[trigger] r@[i].1@[k]@,
                ),
            forall|c: nat, v: Seq<char>|
                #[trigger] self.ranked_at(c, v) ==> exists|i: int, k: int|
                    0 <= i < r@.len() && r@[i].0 as nat == c && 0 <= k < r@[i].1@.len()
                        && #[trigger] r@[i].1@[k]@ == v,
    {
        self.tracker.snapshot()
    }
}

// ---------------------------------------------------------------------------
// Laws of the engine.
// ---------------------------------------------------------------------------

/// Law: every tracked count is exactly the number of window slots its value
/// occupies.
pub proof fn lemma_count_is_occurrences(e: Engine, v: Seq<char>)
    requires
        e.wf(),
    ensures
        e.count(v) == occ(e.win(), v),
{
}

/// Law (sync, at the engine): a value stands in the rank-index bucket of a
/// count exactly when that count is positive and is the value's in-window
/// count.
pub proof fn lemma_engine_sync(e: Engine, c: nat, v: Seq<char>)
    requires
        e.wf(),
    ensures
        e.ranked_at(c, v) <==> (1 <= c && e.count(v) == c),
{
    lemma_sync(e.tracker, c, v);
}

/// Law (conservation): the sum of all counts equals the number of occupied
/// window slots, which is the smaller of the capacity and the number of
/// values fed so far.
pub proof fn lemma_conservation(e: Engine)
    requires
        e.wf(),
    ensures
        e.total_count() == e.win().len(),
        e.total_count() == if e.cap() <= e.fed().len() {
            e.cap()
        } else {
            e.fed().len()
        },
{
    lemma_window_after_len(e.cap(), e.fed());
}

/// Law (determinism / replay): two well-formed engines of the same capacity
/// that were fed the same ordered sequence of values agree on every count
/// and on the whole rank index.
pub proof fn lemma_replay(e1: Engine, e2: Engine, c: nat, v: Seq<char>)
    requires
        e1.wf(),
        e2.wf(),
        e1.cap() == e2.cap(),
        e1.fed() == e2.fed(),
    ensures
        e1.count(v) == e2.count(v),
        e1.ranked_at(c, v) <==> e2.ranked_at(c, v),
{
    assert(e1.win() == e2.win());
    assert(e1.count(v) == occ(e1.win(), v));
    assert(e2.count(v) == occ(e2.win(), v));
    lemma_sync(e1.tracker, c, v);
    lemma_sync(e2.tracker, c, v);
}

/// Law (boundary): with capacity 1 no count exceeds 1, and once anything
/// was fed the rank index holds exactly one membership: the most recently
/// entered value, at count 1.
pub proof fn lemma_window_size_one(e: Engine, c: nat, v: Seq<char>)
    requires
        e.wf(),
        e.cap() == 1,
    ensures
        e.count(v) <= 1,
        e.fed().len() >= 1 ==> (e.ranked_at(c, v) <==> (c == 1 && v == e.fed().last())),
        e.fed().len() == 0 ==> !e.ranked_at(c, v),
{
    lemma_occ_le_len(e.win(), v);
    lemma_window_after_len(1nat, e.fed());
    lemma_sync(e.tracker, c, v);
    if e.fed().len() >= 1 {
        let prev = window_after(1nat, e.fed().drop_last());
        lemma_window_after_len(1nat, e.fed().drop_last());
        assert(e.win() == window_step(prev, 1nat, e.fed().last()));
        assert(e.win() =~= Seq::<Seq<char>>::empty().push(e.fed().last()));
        assert(e.win().drop_last() =~= Seq::<Seq<char>>::empty());
        assert(occ(Seq::<Seq<char>>::empty(), v) == 0);
        assert(e.win().last() == e.fed().last());
        assert(occ(e.win(), v) == if e.fed().last() == v {
            1nat
        } else {
            0nat
        });
    }
}

} // verus!
