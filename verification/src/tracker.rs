//! The two synchronized indices of the ranking: the frequency counter
//! (value to occurrence count) and the rank index (count to the bucket of
//! values sharing that count, ascending).
//!
//! Both live behind one abstraction, `RankTracker`, so that no caller can
//! desynchronize them: a value enters through `update_count_enterwin`,
//! leaves through `update_count_exitwin`, and the ranking is read through
//! `snapshot`.

use vstd::prelude::*;

verus! {

// ---------------------------------------------------------------------------
// The frequency counter, modelled as an association list with distinct keys.
// ---------------------------------------------------------------------------

/// No two counter entries share a key.
pub open spec fn distinct_keys(cs: Seq<(String, usize)>) -> bool {
    forall|i: int, j: int| 0 <= i < j < cs.len() ==> cs[i].0@ != cs[j].0@
}

/// Counter entries have distinct keys and hold only positive counts:
/// a count of zero is never retained.
pub open spec fn counts_inv(cs: Seq<(String, usize)>) -> bool {
    &&& distinct_keys(cs)
    &&& forall|i: int| 0 <= i < cs.len() ==> #[trigger] cs[i].1 >= 1
}

/// Whether the counter holds an entry for the value.
pub open spec fn has_count(cs: Seq<(String, usize)>, v: Seq<char>) -> bool {
    exists|i: int| 0 <= i < cs.len() && #[trigger] cs[i].0@ == v
}

/// The index of the counter entry for the value.
pub open spec fn count_idx(cs: Seq<(String, usize)>, v: Seq<char>) -> int {
    choose|i: int| 0 <= i < cs.len() && #[trigger] cs[i].0@ == v
}

/// The count tracked for the value: zero when no entry exists.
pub open spec fn count_of(cs: Seq<(String, usize)>, v: Seq<char>) -> nat {
    if has_count(cs, v) {
        cs[count_idx(cs, v)].1 as nat
    } else {
        0
    }
}

/// The sum of all tracked counts.
pub open spec fn sum_counts(cs: Seq<(String, usize)>) -> nat
    decreases cs.len(),
{
    if cs.len() == 0 {
        0
    } else {
        (sum_counts(cs.drop_last()) + cs.last().1) as nat
    }
}

// ---------------------------------------------------------------------------
// The rank index, modelled as a list of buckets in ascending count order.
// ---------------------------------------------------------------------------

/// Bucket counts are strictly ascending.
pub open spec fn ascending(rs: Seq<(usize, Vec<String>)>) -> bool {
    forall|i: int, j: int| 0 <= i < j < rs.len() ==> #[trigger] rs[i].0 < #[trigger] rs[j].0
}

/// Whether the bucket holds the value.
pub open spec fn in_bucket(b: Seq<String>, v: Seq<char>) -> bool {
    exists|k: int| 0 <= k < b.len() && #[trigger] b[k]@ == v
}

/// The rank index is sorted, exposes no empty bucket, and lists each bucket
/// member once.
pub open spec fn ranks_inv(rs: Seq<(usize, Vec<String>)>) -> bool {
    &&& ascending(rs)
    &&& forall|i: int| 0 <= i < rs.len() ==> #[trigger] rs[i].1@.len() >= 1
    &&& forall|i: int, a: int, b: int|
        0 <= i < rs.len() && 0 <= a < b < rs[i].1@.len() ==> #[trigger] rs[i].1@[a]@ != #[trigger] rs[i].1@[b]@
}

/// Whether some bucket of the rank index carries the count.
pub open spec fn has_bucket(rs: Seq<(usize, Vec<String>)>, c: nat) -> bool {
    exists|i: int| 0 <= i < rs.len() && #[trigger] rs[i].0 as nat == c
}

/// Whether the value stands in the bucket of the count.
pub open spec fn ranked(rs: Seq<(usize, Vec<String>)>, c: nat, v: Seq<char>) -> bool {
    exists|i: int| 0 <= i < rs.len() && #[trigger] rs[i].0 as nat == c && in_bucket(rs[i].1@, v)
}

// ---------------------------------------------------------------------------
// The tracker.
// ---------------------------------------------------------------------------

/// The internal error raised when an exit is issued for a value that never
/// entered: a programming-invariant violation, never reachable when the
/// window buffer drives the exits.
#[derive(Clone, Copy, Debug, PartialEq, Eq)]
pub enum TrackError {
    /// The value has no tracked count.
    MissingEntry,
}

/// The counter and the rank index, kept synchronized.
pub struct RankTracker {
    counts: Vec<(String, usize)>,
    ranks: Vec<(usize, Vec<String>)>,
}

impl RankTracker {
    /// The count currently tracked for the value; zero when untracked.
    pub closed spec fn count(self, v: Seq<char>) -> nat {
        count_of(self.counts@, v)
    }

    /// Whether the value stands in the bucket of the count.
    pub closed spec fn ranked_at(self, c: nat, v: Seq<char>) -> bool {
        ranked(self.ranks@, c, v)
    }

    /// Whether the rank index holds a bucket of the count.
    pub closed spec fn has_rank(self, c: nat) -> bool {
        has_bucket(self.ranks@, c)
    }

    /// The sum of all tracked counts.
    pub closed spec fn total(self) -> nat {
        sum_counts(self.counts@)
    }

    /// Well-formedness: both indices obey their representation invariants,
    /// and they are synchronized: a value stands in the bucket of a count
    /// exactly when that count is positive and is the value's tracked count.
    pub closed spec fn wf(self) -> bool {
        &&& counts_inv(self.counts@)
        &&& ranks_inv(self.ranks@)
        &&& forall|c: nat, v: Seq<char>|
            #[trigger] ranked(self.ranks@, c, v) <==> (1 <= c && count_of(self.counts@, v) == c)
    }

    /// A fresh tracker: nothing counted, no bucket.
    pub fn new() -> (t: RankTracker)
        ensures
            t.wf(),
            t.total() == 0,
            forall|v: Seq<char>| #[trigger] t.count(v) == 0,
            forall|c: nat, v: Seq<char>| !(#[trigger] t.ranked_at(c, v)),
    {
        let t = RankTracker { counts: Vec::new(), ranks: Vec::new() };
        proof {
            assert(forall|v: Seq<char>| !has_count(t.counts@, v));
            assert(forall|c: nat, v: Seq<char>| !(#[trigger] ranked(t.ranks@, c, v)));
        }
        t
    }

    /// A value entered the window: create its counter entry at count 1 and
    /// put it into the bucket of count 1, or step its count up by one and
    /// move it from the bucket of the old count to the bucket of the new
    /// one. The bucket of the old count is read and updated before the
    /// counter changes.
    pub fn update_count_enterwin(&mut self, entry: &str)
        requires
            old(self).wf(),
            old(self).count(entry@) < usize::MAX,
        ensures
            final(self).wf(),
            final(self).count(entry@) == old(self).count(entry@) + 1,
            forall|v: Seq<char>| v != entry@ ==> final(self).count(v) == old(self).count(v),
            final(self).total() == old(self).total() + 1,
    {
        let key = entry.to_owned();
        let ghost cs0 = self.counts@;
        let ghost rs0 = self.ranks@;
        let ghost kv = key@;
        match find_count_index(&self.counts, &key) {
            None => {
                // first occurrence: count becomes 1
                let key2 = key.clone();
                let ghost keyg = key;
                self.counts.push((key, 1));
                proof {
                    lemma_count_of_push(cs0, (keyg, 1usize));
                    let cs1 = self.counts@;
                    assert forall|i: int| 0 <= i < cs1.len() implies #[trigger] cs1[i].1 >= 1 by {
                        if i < cs0.len() {
                            assert(cs0[i].1 >= 1);
                        }
                    }
                    if ranked(rs0, 1nat, kv) {
                        assert(count_of(cs0, kv) == 1);
                        assert(false);
                    }
                }
                bucket_insert(&mut self.ranks, 1, key2);
                proof {
                    let cs1 = self.counts@;
                    let rs1 = self.ranks@;
                    assert forall|c2: nat, v: Seq<char>| #[trigger]
                        ranked(rs1, c2, v) <==> (1 <= c2 && count_of(cs1, v) == c2) by {
                        assert(ranked(rs1, c2, v) <==> (ranked(rs0, c2, v) || (c2 == 1nat && v
                            == kv)));
                        assert(ranked(rs0, c2, v) <==> (1 <= c2 && count_of(cs0, v) == c2));
                        if v == kv {
                            assert(count_of(cs0, kv) == 0);
                            assert(count_of(cs1, kv) == 1);
                        } else {
                            assert(count_of(cs1, v) == count_of(cs0, v));
                        }
                    }
                }
            },
            Some(i) => {
                let c = self.counts[i].1;
                proof {
                    lemma_count_at(cs0, i as int);
                    assert(count_of(cs0, kv) == c);
                    assert(cs0[i as int].1 >= 1);
                    assert(ranked(rs0, c as nat, kv));
                }
                bucket_remove(&mut self.ranks, c, &key);
                let ghost rsa = self.ranks@;
                let popped = self.counts.remove(i);
                let k0 = popped.0;
                self.counts.insert(i, (k0, c + 1));
                proof {
                    let cs1 = self.counts@;
                    assert(cs0.remove(i as int).insert(i as int, cs1[i as int]) =~= cs0.update(
                        i as int,
                        cs1[i as int],
                    ));
                    assert(cs1 =~= cs0.update(i as int, cs1[i as int]));
                    assert(cs1[i as int].0@ == kv && cs1[i as int].1 == c + 1);
                    lemma_count_of_update(cs0, i as int, cs1[i as int]);
                    lemma_sum_update(cs0, i as int, cs1[i as int]);
                    assert forall|j: int| 0 <= j < cs1.len() implies #[trigger] cs1[j].1 >= 1 by {
                        if j != i {
                            assert(cs1[j] == cs0[j]);
                            assert(cs0[j].1 >= 1);
                        }
                    }
                    // the value cannot stand in the bucket of its new count yet
                    if ranked(rsa, (c + 1) as nat, kv) {
                        assert(ranked(rs0, (c + 1) as nat, kv));
                        assert(count_of(cs0, kv) == c + 1);
                        assert(false);
                    }
                }
                bucket_insert(&mut self.ranks, c + 1, key);
                proof {
                    let cs1 = self.counts@;
                    let rs1 = self.ranks@;
                    assert forall|c2: nat, v: Seq<char>| #[trigger]
                        ranked(rs1, c2, v) <==> (1 <= c2 && count_of(cs1, v) == c2) by {
                        assert(ranked(rs1, c2, v) <==> (ranked(rsa, c2, v) || (c2 == (c + 1) as nat
                            && v == kv)));
                        assert(ranked(rsa, c2, v) <==> (ranked(rs0, c2, v) && !(c2 == c as nat && v
                            == kv)));
                        assert(ranked(rs0, c2, v) <==> (1 <= c2 && count_of(cs0, v) == c2));
                        if v == kv {
                            assert(count_of(cs1, kv) == c + 1);
                        } else {
                            assert(count_of(cs1, v) == count_of(cs0, v));
                        }
                    }
                }
            },
        }
    }

    /// A value left the window: step its count down by one, moving it from
    /// the bucket of the old count to the bucket of the new one, or delete
    /// both the counter entry and the bucket membership when the count
    /// reaches zero. Issuing an exit for a value that never entered is a
    /// programming-invariant violation and raises `MissingEntry`, leaving
    /// the tracker unchanged.
    pub fn update_count_exitwin(&mut self, entry: &str) -> (r: Result<(), TrackError>)
        requires
            old(self).wf(),
        ensures
            final(self).wf(),
            old(self).count(entry@) == 0 ==> (r matches Err(TrackError::MissingEntry)
                && *final(self) == *old(self)),
            old(self).count(entry@) >= 1 ==> {
                &&& r is Ok
                &&& final(self).count(entry@) == old(self).count(entry@) - 1
                &&& (forall|v: Seq<char>| v != entry@ ==> final(self).count(v) == old(self).count(
                    v,
                ))
                &&& final(self).total() == old(self).total() - 1
            },
    {
        let key = entry.to_owned();
        let ghost cs0 = self.counts@;
        let ghost rs0 = self.ranks@;
        let ghost kv = key@;
        match find_count_index(&self.counts, &key) {
            None => {
                proof {
                    assert(count_of(cs0, kv) == 0);
                }
                Err(TrackError::MissingEntry)
            },
            Some(i) => {
                let c = self.counts[i].1;
                proof {
                    lemma_count_at(cs0, i as int);
                    assert(count_of(cs0, kv) == c);
                    assert(cs0[i as int].1 >= 1);
                    assert(ranked(rs0, c as nat, kv));
                }
                bucket_remove(&mut self.ranks, c, &key);
                let ghost rsa = self.ranks@;
                let popped = self.counts.remove(i);
                let k0 = popped.0;
                proof {
                    lemma_count_of_remove(cs0, i as int);
                }
                if c > 1 {
                    self.counts.insert(i, (k0, c - 1));
                    proof {
                        let cs1 = self.counts@;
                        assert(cs0.remove(i as int).insert(i as int, cs1[i as int]) =~= cs0.update(
                            i as int,
                            cs1[i as int],
                        ));
                        assert(cs1 =~= cs0.update(i as int, cs1[i as int]));
                        assert(cs1[i as int].0@ == kv && cs1[i as int].1 == c - 1);
                        lemma_count_of_update(cs0, i as int, cs1[i as int]);
                        lemma_sum_update(cs0, i as int, cs1[i as int]);
                        assert forall|j: int| 0 <= j < cs1.len() implies #[trigger] cs1[j].1
                            >= 1 by {
                            if j != i {
                                assert(cs1[j] == cs0[j]);
                                assert(cs0[j].1 >= 1);
                            }
                        }
                        if ranked(rsa, (c - 1) as nat, kv) {
                            assert(ranked(rs0, (c - 1) as nat, kv));
                            assert(count_of(cs0, kv) == c - 1);
                            assert(false);
                        }
                    }
                    bucket_insert(&mut self.ranks, c - 1, key);
                    proof {
                        let cs1 = self.counts@;
                        let rs1 = self.ranks@;
                        assert forall|c2: nat, v: Seq<char>| #[trigger]
                            ranked(rs1, c2, v) <==> (1 <= c2 && count_of(cs1, v) == c2) by {
                            assert(ranked(rs1, c2, v) <==> (ranked(rsa, c2, v) || (c2 == (c
                                - 1) as nat && v == kv)));
                            assert(ranked(rsa, c2, v) <==> (ranked(rs0, c2, v) && !(c2 == c as nat
                                && v == kv)));
                            assert(ranked(rs0, c2, v) <==> (1 <= c2 && count_of(cs0, v) == c2));
                            if v == kv {
                                assert(count_of(cs1, kv) == c - 1);
                            } else {
                                assert(count_of(cs1, v) == count_of(cs0, v));
                            }
                        }
                    }
                } else {
                    // the count reached zero: the entry is gone entirely
                    proof {
                        let cs1 = self.counts@;
                        let rs1 = self.ranks@;
                        assert(cs1 == cs0.remove(i as int));
                        assert forall|j: int| 0 <= j < cs1.len() implies #[trigger] cs1[j].1
                            >= 1 by {
                            cs0.remove_ensures(i as int);
                            let j0: int = if j < i { j } else { j + 1 };
                            assert(cs1[j] == cs0[j0]);
                            assert(cs0[j0].1 >= 1);
                        }
                        assert forall|c2: nat, v: Seq<char>| #[trigger]
                            ranked(rs1, c2, v) <==> (1 <= c2 && count_of(cs1, v) == c2) by {
                            assert(ranked(rs1, c2, v) <==> (ranked(rs0, c2, v) && !(c2 == c as nat
                                && v == kv)));
                            assert(ranked(rs0, c2, v) <==> (1 <= c2 && count_of(cs0, v) == c2));
                            if v == kv {
                                assert(count_of(cs1, kv) == 0);
                            } else {
                                assert(count_of(cs1, v) == count_of(cs0, v));
                            }
                        }
                    }
                }
                Ok(())
            },
        }
    }

    /// The full ranking, for reporting: (count, bucket) pairs in strictly
    /// ascending count order, every bucket non-empty, and each current
    /// member of a bucket listed exactly once.
    pub fn snapshot(&self) -> (r: &Vec<(usize, Vec<String>)>)
        requires
            self.wf(),
        ensures
            forall|i: int, j: int| 0 <= i < j < r@.len() ==> #[trigger] r@[i].0 < #[trigger] r@[j].0,
            forall|i: int| 0 <= i < r@.len() ==> #[trigger] r@[i].1@.len() >= 1,
            forall|i: int, a: int, b: int|
                0 <= i < r@.len() && 0 <= a < b < r@[i].1@.len() ==> #[trigger] r@[i].1@[a]@
                    != #[trigger] r@[i].1@[b]@,
            forall|i: int, k: int|
                0 <= i < r@.len() && 0 <= k < r@[i].1@.len() ==> self.ranked_at(
                    r@[i].0 as nat,
                    #[trigger] r@[i].1@[k]@,
                ),
            forall|c: nat, v: Seq<char>|
                #[trigger] self.ranked_at(c, v) ==> exists|i: int, k: int|
                    0 <= i < r@.len() && r@[i].0 as nat == c && 0 <= k < r@[i].1@.len()
                        && #[trigger] r@[i].1@[k]@ == v,
    {
        proof {
            let rs = self.ranks@;
            assert forall|i: int, k: int|
                0 <= i < rs.len() && 0 <= k < rs[i].1@.len() implies ranked(
                rs,
                rs[i].0 as nat,
                #[trigger] rs[i].1@[k]@,
            ) by {
                assert(in_bucket(rs[i].1@, rs[i].1@[k]@));
            }
            assert forall|c: nat, v: Seq<char>| #[trigger] ranked(rs, c, v) implies exists|
                i: int,
                k: int,
            |
                0 <= i < rs.len() && rs[i].0 as nat == c && 0 <= k < rs[i].1@.len()
                    && #[trigger] rs[i].1@[k]@ == v by {
                let i = choose|i: int|
                    0 <= i < rs.len() && #[trigger] rs[i].0 as nat == c && in_bucket(rs[i].1@, v);
                let k = choose|k: int| 0 <= k < rs[i].1@.len() && #[trigger] rs[i].1@[k]@ == v;
                assert(0 <= i < rs.len() && rs[i].0 as nat == c && 0 <= k < rs[i].1@.len()
                    && rs[i].1@[k]@ == v);
            }
        }
        &self.ranks
    }
}

// ---------------------------------------------------------------------------
// Laws of the tracker.
// ---------------------------------------------------------------------------

/// Law (sync): a value stands in the bucket of a count exactly when that
/// count is positive and is the value's tracked count; in particular a value
/// with count `c > 0` belongs to the bucket of `c` and to no other.
pub proof fn lemma_sync(t: RankTracker, c: nat, v: Seq<char>)
    requires
        t.wf(),
    ensures
        t.ranked_at(c, v) <==> (1 <= c && t.count(v) == c),
{
    assert(ranked(t.ranks@, c, v) <==> (1 <= c && count_of(t.counts@, v) == c));
}

/// Law (sync, uniqueness): a value never stands in two buckets at once.
pub proof fn lemma_sync_unique(t: RankTracker, c1: nat, c2: nat, v: Seq<char>)
    requires
        t.wf(),
        t.ranked_at(c1, v),
        t.ranked_at(c2, v),
    ensures
        c1 == c2,
{
    lemma_sync(t, c1, v);
    lemma_sync(t, c2, v);
}

/// A value ranked at a count stands in a bucket, so the rank index carries
/// a bucket of that count.
pub proof fn lemma_ranked_has_bucket(t: RankTracker, c: nat, v: Seq<char>)
    requires
        t.ranked_at(c, v),
    ensures
        t.has_rank(c),
{
    let rs = t.ranks@;
    let i = choose|i: int|
        0 <= i < rs.len() && #[trigger] rs[i].0 as nat == c && in_bucket(rs[i].1@, v);
    assert(has_bucket(rs, c));
}

/// Law (no empty buckets): every count the rank index carries has at least
/// one value ranked at it.
pub proof fn lemma_no_empty_bucket(t: RankTracker, c: nat)
    requires
        t.wf(),
        t.has_rank(c),
    ensures
        exists|v: Seq<char>| #[trigger] t.ranked_at(c, v),
{
    let rs = t.ranks@;
    let i = choose|i: int| 0 <= i < rs.len() && #[trigger] rs[i].0 as nat == c;
    let v = rs[i].1@[0]@;
    assert(in_bucket(rs[i].1@, v));
    assert(ranked(rs, c, v));
    assert(t.ranked_at(c, v));
}

// ---------------------------------------------------------------------------
// Search helpers.
// ---------------------------------------------------------------------------

fn find_count_index(cs: &Vec<(String, usize)>, key: &String) -> (r: Option<usize>)
    ensures
        r matches Some(i) ==> i < cs@.len() && cs@[i as int].0@ == key@,
        r is None ==> !has_count(cs@, key@),
{
    let mut i: usize = 0;
    while i < cs.len()
        invariant
            i <= cs@.len(),
            forall|j: int| 0 <= j < i ==> cs@[j].0@ != key@,
        decreases cs@.len() - i,
    {
        if cs[i].0 == *key {
            return Some(i);
        }
        i = i + 1;
    }
    None
}

fn find_bucket_index(rs: &Vec<(usize, Vec<String>)>, c: usize) -> (r: Option<usize>)
    ensures
        r matches Some(i) ==> i < rs@.len() && rs@[i as int].0 == c,
        r is None ==> !has_bucket(rs@, c as nat),
{
    let mut i: usize = 0;
    while i < rs.len()
        invariant
            i <= rs@.len(),
            forall|j: int| 0 <= j < i ==> rs@[j].0 != c,
        decreases rs@.len() - i,
    {
        if rs[i].0 == c {
            return Some(i);
        }
        i = i + 1;
    }
    None
}

fn find_member_index(b: &Vec<String>, key: &String) -> (r: Option<usize>)
    ensures
        r matches Some(k) ==> k < b@.len() && b@[k as int]@ == key@,
        r is None ==> !in_bucket(b@, key@),
{
    let mut k: usize = 0;
    while k < b.len()
        invariant
            k <= b@.len(),
            forall|j: int| 0 <= j < k ==> b@[j]@ != key@,
        decreases b@.len() - k,
    {
        if b[k] == *key {
            return Some(k);
        }
        k = k + 1;
    }
    None
}

// ---------------------------------------------------------------------------
// Lemmas about the counter model.
// ---------------------------------------------------------------------------

/// The counter entry at an index is the one the model reads for its key.
proof fn lemma_count_at(cs: Seq<(String, usize)>, i: int)
    requires
        distinct_keys(cs),
        0 <= i < cs.len(),
    ensures
        has_count(cs, cs[i].0@),
        count_idx(cs, cs[i].0@) == i,
        count_of(cs, cs[i].0@) == cs[i].1,
{
    assert(cs[i].0@ == cs[i].0@);
    let j = count_idx(cs, cs[i].0@);
    assert(0 <= j < cs.len() && cs[j].0@ == cs[i].0@);
    if j < i {
        assert(cs[j].0@ != cs[i].0@);
    } else if i < j {
        assert(cs[i].0@ != cs[j].0@);
    }
}

/// Replacing the entry at an index by one with the same key moves the model
/// pointwise: the key's count becomes the new one, every other count stays.
proof fn lemma_count_of_update(cs: Seq<(String, usize)>, i: int, p: (String, usize))
    requires
        distinct_keys(cs),
        0 <= i < cs.len(),
        p.0@ == cs[i].0@,
    ensures
        distinct_keys(cs.update(i, p)),
        count_of(cs.update(i, p), p.0@) == p.1,
        forall|v: Seq<char>| v != p.0@ ==> count_of(cs.update(i, p), v) == count_of(cs, v),
        forall|v: Seq<char>| has_count(cs.update(i, p), v) == has_count(cs, v),
{
    let cs2 = cs.update(i, p);
    assert forall|a: int, b: int| 0 <= a < b < cs2.len() implies cs2[a].0@ != cs2[b].0@ by {
        assert(cs[a].0@ != cs[b].0@);
    }
    lemma_count_at(cs2, i);
    assert forall|v: Seq<char>| has_count(cs2, v) == has_count(cs, v) by {
        if has_count(cs, v) {
            let j = count_idx(cs, v);
            if j == i {
                assert(cs2[i].0@ == v);
            } else {
                assert(cs2[j].0@ == v);
            }
            assert(has_count(cs2, v));
        }
        if has_count(cs2, v) {
            let j = count_idx(cs2, v);
            if j == i {
                assert(cs[i].0@ == v);
            } else {
                assert(cs[j].0@ == v);
            }
            assert(has_count(cs, v));
        }
    }
    assert forall|v: Seq<char>| v != p.0@ implies count_of(cs2, v) == count_of(cs, v) by {
        if has_count(cs, v) {
            let j = count_idx(cs, v);
            assert(cs[j].0@ == v);
            assert(j != i);
            lemma_count_at(cs, j);
            assert(cs2[j] == cs[j]);
            lemma_count_at(cs2, j);
        }
    }
}

/// Appending an entry for a key the counter lacks gives the key that count
/// and leaves every other count, adding the new count to the sum.
proof fn lemma_count_of_push(cs: Seq<(String, usize)>, p: (String, usize))
    requires
        distinct_keys(cs),
        !has_count(cs, p.0@),
    ensures
        distinct_keys(cs.push(p)),
        count_of(cs.push(p), p.0@) == p.1,
        forall|v: Seq<char>| v != p.0@ ==> count_of(cs.push(p), v) == count_of(cs, v),
        sum_counts(cs.push(p)) == sum_counts(cs) + p.1,
{
    let cs2 = cs.push(p);
    let n = cs.len() as int;
    assert forall|a: int, b: int| 0 <= a < b < cs2.len() implies cs2[a].0@ != cs2[b].0@ by {
        if b < n {
            assert(cs[a].0@ != cs[b].0@);
        } else {
            assert(cs2[b] == p);
            assert(cs2[a] == cs[a]);
            if cs[a].0@ == p.0@ {
                assert(has_count(cs, p.0@));
            }
        }
    }
    assert(cs2[n] == p);
    lemma_count_at(cs2, n);
    assert forall|v: Seq<char>| v != p.0@ implies count_of(cs2, v) == count_of(cs, v) by {
        if has_count(cs, v) {
            let j = count_idx(cs, v);
            assert(cs[j].0@ == v);
            lemma_count_at(cs, j);
            assert(cs2[j] == cs[j]);
            lemma_count_at(cs2, j);
        } else {
            if has_count(cs2, v) {
                let j = count_idx(cs2, v);
                assert(0 <= j < cs2.len() && cs2[j].0@ == v);
                assert(j < n);
                assert(cs[j].0@ == v);
            }
        }
    }
    assert(cs2.drop_last() =~= cs);
}

/// Removing the entry at an index erases its key's count and leaves every
/// other count, taking the erased count out of the sum.
proof fn lemma_count_of_remove(cs: Seq<(String, usize)>, i: int)
    requires
        distinct_keys(cs),
        0 <= i < cs.len(),
    ensures
        distinct_keys(cs.remove(i)),
        !has_count(cs.remove(i), cs[i].0@),
        forall|v: Seq<char>| v != cs[i].0@ ==> count_of(cs.remove(i), v) == count_of(cs, v),
        sum_counts(cs.remove(i)) + cs[i].1 == sum_counts(cs),
{
    let cs2 = cs.remove(i);
    cs.remove_ensures(i);
    assert forall|a: int, b: int| 0 <= a < b < cs2.len() implies cs2[a].0@ != cs2[b].0@ by {
        let a0: int = if a < i { a } else { a + 1 };
        let b0: int = if b < i { b } else { b + 1 };
        assert(cs2[a] == cs[a0]);
        assert(cs2[b] == cs[b0]);
        assert(cs[a0].0@ != cs[b0].0@);
    }
    if has_count(cs2, cs[i].0@) {
        let j = count_idx(cs2, cs[i].0@);
        assert(0 <= j < cs2.len() && cs2[j].0@ == cs[i].0@);
        let j0: int = if j < i { j } else { j + 1 };
        assert(cs2[j] == cs[j0]);
        assert(j0 != i);
        if j0 < i {
            assert(cs[j0].0@ != cs[i].0@);
        } else {
            assert(cs[i].0@ != cs[j0].0@);
        }
    }
    assert forall|v: Seq<char>| v != cs[i].0@ implies count_of(cs2, v) == count_of(cs, v) by {
        if has_count(cs, v) {
            let j = count_idx(cs, v);
            assert(cs[j].0@ == v);
            assert(j != i);
            lemma_count_at(cs, j);
            let j2: int = if j < i { j } else { j - 1 };
            assert(cs2[j2] == cs[j]);
            lemma_count_at(cs2, j2);
        } else {
            if has_count(cs2, v) {
                let j = count_idx(cs2, v);
                assert(0 <= j < cs2.len() && cs2[j].0@ == v);
                let j0: int = if j < i { j } else { j + 1 };
                assert(cs[j0].0@ == v);
            }
        }
    }
    lemma_sum_remove(cs, i);
}

/// The sum of counts after removing an entry.
proof fn lemma_sum_remove(cs: Seq<(String, usize)>, i: int)
    requires
        0 <= i < cs.len(),
    ensures
        sum_counts(cs.remove(i)) + cs[i].1 == sum_counts(cs),
    decreases cs.len(),
{
    let cs2 = cs.remove(i);
    cs.remove_ensures(i);
    if i == cs.len() - 1 {
        assert(cs2 =~= cs.drop_last());
    } else {
        assert(cs2.drop_last() =~= cs.drop_last().remove(i));
        lemma_sum_remove(cs.drop_last(), i);
        assert(cs2.last() == cs.last());
    }
}

/// The sum of counts after replacing the entry at an index.
proof fn lemma_sum_update(cs: Seq<(String, usize)>, i: int, p: (String, usize))
    requires
        0 <= i < cs.len(),
    ensures
        sum_counts(cs.update(i, p)) + cs[i].1 == sum_counts(cs) + p.1,
    decreases cs.len(),
{
    let cs2 = cs.update(i, p);
    if i == cs.len() - 1 {
        assert(cs2.drop_last() =~= cs.drop_last());
        assert(cs2.last() == p);
    } else {
        assert(cs2.drop_last() =~= cs.drop_last().update(i, p));
        lemma_sum_update(cs.drop_last(), i, p);
        assert(cs2.last() == cs.last());
    }
}

// ---------------------------------------------------------------------------
// Lemmas about the rank index model.
// ---------------------------------------------------------------------------

/// Under `ascending`, at most one bucket carries a given count.
proof fn lemma_bucket_unique(rs: Seq<(usize, Vec<String>)>, i: int, j: int)
    requires
        ascending(rs),
        0 <= i < rs.len(),
        0 <= j < rs.len(),
        rs[i].0 == rs[j].0,
    ensures
        i == j,
{
    if i < j {
        assert(rs[i].0 < rs[j].0);
    } else if j < i {
        assert(rs[j].0 < rs[i].0);
    }
}

/// The first position whose bucket count is at least `c`; under `ascending`
/// this is where a bucket of count `c` stands or must be inserted.
fn find_insert_pos(rs: &Vec<(usize, Vec<String>)>, c: usize) -> (p: usize)
    ensures
        p <= rs@.len(),
        forall|j: int| 0 <= j < p ==> #[trigger] rs@[j].0 < c,
        p < rs@.len() ==> rs@[p as int].0 >= c,
{
    let mut p: usize = 0;
    while p < rs.len()
        invariant
            p <= rs@.len(),
            forall|j: int| 0 <= j < p ==> #[trigger] rs@[j].0 < c,
        decreases rs@.len() - p,
    {
        if rs[p].0 >= c {
            return p;
        }
        p = p + 1;
    }
    p
}

// ---------------------------------------------------------------------------
// The two halves of the rank-index `move`: taking a value out of the bucket
// of its old count, and putting it into the bucket of its new count.
// ---------------------------------------------------------------------------

/// Removes the value from the bucket of count `c`, deleting the bucket if it
/// empties: the index never exposes a bucket with zero members.
fn bucket_remove(rs: &mut Vec<(usize, Vec<String>)>, c: usize, key: &String)
    requires
        ranks_inv(old(rs)@),
        ranked(old(rs)@, c as nat, key@),
    ensures
        ranks_inv(final(rs)@),
        forall|c2: nat, v: Seq<char>|
            #[trigger] ranked(final(rs)@, c2, v) <==> (ranked(old(rs)@, c2, v) && !(c2 == c as nat
                && v == key@)),
{
    let ghost rs0 = rs@;
    proof {
        let w = choose|i: int|
            0 <= i < rs0.len() && #[trigger] rs0[i].0 as nat == c as nat && in_bucket(
                rs0[i].1@,
                key@,
            );
        assert(rs0[w].0 == c);
        assert(has_bucket(rs0, c as nat));
    }
    let bi = match find_bucket_index(rs, c) {
        Some(b) => b,
        None => {
            proof {
                assert(false);
            }
            0
        },
    };
    proof {
        // the bucket of count c is unique, so it is the one `ranked` points at
        let w = choose|i: int|
            0 <= i < rs0.len() && #[trigger] rs0[i].0 as nat == c as nat && in_bucket(
                rs0[i].1@,
                key@,
            );
        lemma_bucket_unique(rs0, w, bi as int);
        assert(in_bucket(rs0[bi as int].1@, key@));
    }
    let ki = match find_member_index(&rs[bi].1, key) {
        Some(k) => k,
        None => {
            proof {
                assert(false);
            }
            0
        },
    };
    let ghost m0 = rs0[bi as int].1@;
    if rs[bi].1.len() == 1 {
        // `key` is the bucket's only member: delete the bucket
        let _ = rs.remove(bi);
        proof {
            rs0.remove_ensures(bi as int);
            let rs1 = rs@;
            assert forall|a: int, b: int| 0 <= a < b < rs1.len() implies #[trigger] rs1[a].0
                < #[trigger] rs1[b].0 by {
                let a0: int = if a < bi { a } else { a + 1 };
                let b0: int = if b < bi { b } else { b + 1 };
                assert(rs1[a] == rs0[a0]);
                assert(rs1[b] == rs0[b0]);
                assert(rs0[a0].0 < rs0[b0].0);
            }
            assert forall|i: int| 0 <= i < rs1.len() implies #[trigger] rs1[i].1@.len() >= 1 by {
                let i0: int = if i < bi { i } else { i + 1 };
                assert(rs1[i] == rs0[i0]);
            }
            assert forall|i: int, a: int, b: int|
                0 <= i < rs1.len() && 0 <= a < b < rs1[i].1@.len() implies #[trigger] rs1[i].1@[a]@
                != #[trigger] rs1[i].1@[b]@ by {
                let i0: int = if i < bi { i } else { i + 1 };
                assert(rs1[i] == rs0[i0]);
                assert(rs0[i0].1@[a]@ != rs0[i0].1@[b]@);
            }
            assert forall|c2: nat, v: Seq<char>| #[trigger]
                ranked(rs1, c2, v) <==> (ranked(rs0, c2, v) && !(c2 == c as nat
                && v == key@)) by {
                if ranked(rs1, c2, v) {
                    let i = choose|i: int|
                        0 <= i < rs1.len() && #[trigger] rs1[i].0 as nat == c2 && in_bucket(
                            rs1[i].1@,
                            v,
                        );
                    let i0: int = if i < bi { i } else { i + 1 };
                    assert(rs1[i] == rs0[i0]);
                    assert(rs0[i0].0 as nat == c2 && in_bucket(rs0[i0].1@, v));
                    assert(ranked(rs0, c2, v));
                    if c2 == c as nat {
                        lemma_bucket_unique(rs0, i0, bi as int);
                        assert(false);
                    }
                }
                if ranked(rs0, c2, v) && !(c2 == c as nat && v == key@) {
                    let i0 = choose|i: int|
                        0 <= i < rs0.len() && #[trigger] rs0[i].0 as nat == c2 && in_bucket(
                            rs0[i].1@,
                            v,
                        );
                    if i0 == bi {
                        // the only member of this bucket is `key`
                        let k = choose|k: int| 0 <= k < m0.len() && #[trigger] m0[k]@ == v;
                        assert(m0.len() == 1);
                        assert(k == 0 && ki == 0);
                        assert(v == key@);
                        assert(false);
                    } else {
                        let i: int = if i0 < bi { i0 } else { i0 - 1 };
                        assert(rs1[i] == rs0[i0]);
                        assert(rs1[i].0 as nat == c2 && in_bucket(rs1[i].1@, v));
                        assert(ranked(rs1, c2, v));
                    }
                }
            }
        }
    } else {
        // take `key` out, keep the rest of the bucket
        let popped = rs.remove(bi);
        let cv = popped.0;
        let mut members = popped.1;
        let _ = members.remove(ki);
        proof {
            m0.remove_ensures(ki as int);
        }
        rs.insert(bi, (cv, members));
        proof {
            let rs1 = rs@;
            let m1 = m0.remove(ki as int);
            assert(rs0.remove(bi as int).insert(bi as int, rs1[bi as int]) =~= rs0.update(
                bi as int,
                rs1[bi as int],
            ));
            assert(rs1 =~= rs0.update(bi as int, rs1[bi as int]));
            assert(rs1[bi as int].0 == c && rs1[bi as int].1@ == m1);
            assert(rs1.len() == rs0.len());
            assert(forall|j: int| 0 <= j < rs1.len() && j != bi ==> rs1[j] == rs0[j]);
            // `key` appears in the bucket only at position ki
            assert forall|k: int| 0 <= k < m0.len() && k != ki implies m0[k]@ != key@ by {
                if k < ki {
                    assert(m0[k]@ != m0[ki as int]@);
                } else {
                    assert(m0[ki as int]@ != m0[k]@);
                }
            }
            assert forall|a: int, b: int| 0 <= a < b < rs1.len() implies #[trigger] rs1[a].0
                < #[trigger] rs1[b].0 by {
                assert(rs0[a].0 < rs0[b].0);
            }
            assert forall|i: int| 0 <= i < rs1.len() implies #[trigger] rs1[i].1@.len() >= 1 by {}
            assert forall|i: int, a: int, b: int|
                0 <= i < rs1.len() && 0 <= a < b < rs1[i].1@.len() implies #[trigger] rs1[i].1@[a]@
                != #[trigger] rs1[i].1@[b]@ by {
                if i == bi {
                    let a0: int = if a < ki { a } else { a + 1 };
                    let b0: int = if b < ki { b } else { b + 1 };
                    assert(m1[a] == m0[a0]);
                    assert(m1[b] == m0[b0]);
                    assert(m0[a0]@ != m0[b0]@);
                } else {
                    assert(rs0[i].1@[a]@ != rs0[i].1@[b]@);
                }
            }
            assert forall|c2: nat, v: Seq<char>| #[trigger]
                ranked(rs1, c2, v) <==> (ranked(rs0, c2, v) && !(c2 == c as nat
                && v == key@)) by {
                if ranked(rs1, c2, v) {
                    let i = choose|i: int|
                        0 <= i < rs1.len() && #[trigger] rs1[i].0 as nat == c2 && in_bucket(
                            rs1[i].1@,
                            v,
                        );
                    if i == bi {
                        let k = choose|k: int| 0 <= k < m1.len() && #[trigger] m1[k]@ == v;
                        let k0: int = if k < ki { k } else { k + 1 };
                        assert(m1[k] == m0[k0]);
                        assert(in_bucket(m0, v));
                        assert(ranked(rs0, c2, v));
                        assert(k0 != ki);
                        assert(v != key@);
                    } else {
                        assert(rs0[i].0 as nat == c2 && in_bucket(rs0[i].1@, v));
                        assert(ranked(rs0, c2, v));
                        if c2 == c as nat {
                            lemma_bucket_unique(rs0, i, bi as int);
                            assert(false);
                        }
                    }
                }
                if ranked(rs0, c2, v) && !(c2 == c as nat && v == key@) {
                    let i0 = choose|i: int|
                        0 <= i < rs0.len() && #[trigger] rs0[i].0 as nat == c2 && in_bucket(
                            rs0[i].1@,
                            v,
                        );
                    if i0 == bi {
                        assert(v != key@);
                        let k = choose|k: int| 0 <= k < m0.len() && #[trigger] m0[k]@ == v;
                        assert(k != ki);
                        let k1: int = if k < ki { k } else { k - 1 };
                        assert(m1[k1] == m0[k]);
                        assert(in_bucket(m1, v));
                        assert(rs1[bi as int].0 as nat == c2);
                        assert(ranked(rs1, c2, v));
                    } else {
                        assert(rs1[i0] == rs0[i0]);
                        assert(rs1[i0].0 as nat == c2 && in_bucket(rs1[i0].1@, v));
                        assert(ranked(rs1, c2, v));
                    }
                }
            }
        }
    }
}

/// Inserts the value into the bucket of count `c`, creating the bucket at
/// its ascending position if absent.
fn bucket_insert(rs: &mut Vec<(usize, Vec<String>)>, c: usize, key: String)
    requires
        ranks_inv(old(rs)@),
        c >= 1,
        !ranked(old(rs)@, c as nat, key@),
    ensures
        ranks_inv(final(rs)@),
        forall|c2: nat, v: Seq<char>|
            #[trigger] ranked(final(rs)@, c2, v) <==> (ranked(old(rs)@, c2, v) || (c2 == c as nat
                && v == key@)),
{
    let ghost rs0 = rs@;
    let ghost kv = key@;
    let ghost keyg = key;
    let p = find_insert_pos(rs, c);
    let hit = p < rs.len() && rs[p].0 == c;
    if hit {
        // the bucket exists: append the new member
        let popped = rs.remove(p);
        let cv = popped.0;
        let ghost m0 = popped.1@;
        let mut members = popped.1;
        members.push(key);
        rs.insert(p, (cv, members));
        proof {
            let rs1 = rs@;
            let m1 = m0.push(keyg);
            assert(rs1 =~= rs0.update(p as int, rs1[p as int]));
            assert(rs1[p as int].0 == c && rs1[p as int].1@ == m1);
            assert(forall|j: int| 0 <= j < rs1.len() && j != p ==> rs1[j] == rs0[j]);
            // the new member was not in the bucket before
            assert forall|k: int| 0 <= k < m0.len() implies m0[k]@ != kv by {
                if m0[k]@ == kv {
                    assert(in_bucket(rs0[p as int].1@, kv));
                    assert(rs0[p as int].0 as nat == c as nat);
                    assert(ranked(rs0, c as nat, kv));
                }
            }
            assert forall|a: int, b: int| 0 <= a < b < rs1.len() implies #[trigger] rs1[a].0
                < #[trigger] rs1[b].0 by {
                assert(rs0[a].0 < rs0[b].0);
            }
            assert forall|i: int| 0 <= i < rs1.len() implies #[trigger] rs1[i].1@.len() >= 1 by {}
            assert forall|i: int, a: int, b: int|
                0 <= i < rs1.len() && 0 <= a < b < rs1[i].1@.len() implies #[trigger] rs1[i].1@[a]@
                != #[trigger] rs1[i].1@[b]@ by {
                if i == p {
                    if b == m0.len() {
                        assert(m1[b]@ == kv);
                        assert(m1[a] == m0[a]);
                    } else {
                        assert(m0[a]@ != m0[b]@);
                    }
                } else {
                    assert(rs0[i].1@[a]@ != rs0[i].1@[b]@);
                }
            }
            assert forall|c2: nat, v: Seq<char>| #[trigger]
                ranked(rs1, c2, v) <==> (ranked(rs0, c2, v) || (c2 == c as nat && v == kv)) by {
                if ranked(rs1, c2, v) {
                    let i = choose|i: int|
                        0 <= i < rs1.len() && #[trigger] rs1[i].0 as nat == c2 && in_bucket(
                            rs1[i].1@,
                            v,
                        );
                    if i == p {
                        let k = choose|k: int| 0 <= k < m1.len() && #[trigger] m1[k]@ == v;
                        if k == m0.len() {
                            assert(v == kv && c2 == c as nat);
                        } else {
                            assert(m1[k] == m0[k]);
                            assert(in_bucket(m0, v));
                            assert(ranked(rs0, c2, v));
                        }
                    } else {
                        assert(rs0[i].0 as nat == c2 && in_bucket(rs0[i].1@, v));
                        assert(ranked(rs0, c2, v));
                    }
                }
                if ranked(rs0, c2, v) {
                    let i0 = choose|i: int|
                        0 <= i < rs0.len() && #[trigger] rs0[i].0 as nat == c2 && in_bucket(
                            rs0[i].1@,
                            v,
                        );
                    if i0 == p {
                        let k = choose|k: int| 0 <= k < m0.len() && #[trigger] m0[k]@ == v;
                        assert(m1[k] == m0[k]);
                        assert(in_bucket(m1, v));
                        assert(ranked(rs1, c2, v));
                    } else {
                        assert(rs1[i0] == rs0[i0]);
                        assert(rs1[i0].0 as nat == c2 && in_bucket(rs1[i0].1@, v));
                        assert(ranked(rs1, c2, v));
                    }
                }
                if c2 == c as nat && v == kv {
                    assert(m1[m0.len() as int]@ == kv);
                    assert(in_bucket(m1, kv));
                    assert(rs1[p as int].0 as nat == c2);
                    assert(ranked(rs1, c2, v));
                }
            }
        }
    } else {
        // no bucket of count c: create one at the ascending position
        proof {
            // nothing at or after p carries count c
            assert forall|j: int| 0 <= j < rs0.len() implies #[trigger] rs0[j].0 != c by {
                if j >= p + 1 {
                    assert(rs0[p as int].0 < rs0[j].0);
                }
            }
        }
        let mut members: Vec<String> = Vec::new();
        members.push(key);
        rs.insert(p, (c, members));
        proof {
            rs0.insert_ensures(p as int, rs@[p as int]);
            let rs1 = rs@;
            assert(rs1[p as int].0 == c && rs1[p as int].1@.len() == 1 && rs1[p as int].1@[0]@
                == kv);
            assert(rs1.len() == rs0.len() + 1);
            assert forall|a: int, b: int| 0 <= a < b < rs1.len() implies #[trigger] rs1[a].0
                < #[trigger] rs1[b].0 by {
                let a0: int = if a < p { a } else { a - 1 };
                let b0: int = if b < p { b } else { b - 1 };
                if a != p && b != p {
                    assert(rs1[a] == rs0[a0]);
                    assert(rs1[b] == rs0[b0]);
                    if a0 < b0 {
                        assert(rs0[a0].0 < rs0[b0].0);
                    }
                } else if a == p {
                    assert(rs1[b] == rs0[b0]);
                    assert(rs0[b0].0 >= c && rs0[b0].0 != c);
                } else {
                    assert(rs1[a] == rs0[a0]);
                    assert(rs0[a0].0 < c);
                }
            }
            assert forall|i: int| 0 <= i < rs1.len() implies #[trigger] rs1[i].1@.len() >= 1 by {
                if i != p {
                    let i0: int = if i < p { i } else { i - 1 };
                    assert(rs1[i] == rs0[i0]);
                }
            }
            assert forall|i: int, a: int, b: int|
                0 <= i < rs1.len() && 0 <= a < b < rs1[i].1@.len() implies #[trigger] rs1[i].1@[a]@
                != #[trigger] rs1[i].1@[b]@ by {
                if i != p {
                    let i0: int = if i < p { i } else { i - 1 };
                    assert(rs1[i] == rs0[i0]);
                    assert(rs0[i0].1@[a]@ != rs0[i0].1@[b]@);
                }
            }
            assert forall|c2: nat, v: Seq<char>| #[trigger]
                ranked(rs1, c2, v) <==> (ranked(rs0, c2, v) || (c2 == c as nat && v == kv)) by {
                if ranked(rs1, c2, v) {
                    let i = choose|i: int|
                        0 <= i < rs1.len() && #[trigger] rs1[i].0 as nat == c2 && in_bucket(
                            rs1[i].1@,
                            v,
                        );
                    if i == p {
                        let k = choose|k: int| 0 <= k < rs1[i].1@.len() && #[trigger] rs1[i].1@[k]@
                            == v;
                        assert(v == kv && c2 == c as nat);
                    } else {
                        let i0: int = if i < p { i } else { i - 1 };
                        assert(rs1[i] == rs0[i0]);
                        assert(rs0[i0].0 as nat == c2 && in_bucket(rs0[i0].1@, v));
                        assert(ranked(rs0, c2, v));
                    }
                }
                if ranked(rs0, c2, v) {
                    let i0 = choose|i: int|
                        0 <= i < rs0.len() && #[trigger] rs0[i].0 as nat == c2 && in_bucket(
                            rs0[i].1@,
                            v,
                        );
                    let i: int = if i0 < p { i0 } else { i0 + 1 };
                    assert(rs1[i] == rs0[i0]);
                    assert(rs1[i].0 as nat == c2 && in_bucket(rs1[i].1@, v));
                    assert(ranked(rs1, c2, v));
                }
                if c2 == c as nat && v == kv {
                    assert(rs1[p as int].1@[0]@ == kv);
                    assert(in_bucket(rs1[p as int].1@, kv));
                    assert(rs1[p as int].0 as nat == c2);
                    assert(ranked(rs1, c2, v));
                }
            }
        }
    }
}

} // verus!
