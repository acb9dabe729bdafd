//! The anchor: the integer state machine that assigns keys to buckets and
//! tracks which buckets are working.
use vstd::prelude::*;

use crate::fasthash::{fasthash, fasthash_spec};
use crate::range_map::{range_map, range_map_spec};

verus! {

/// The bucket a key resolved to, and whether resolving it followed at least
/// one successor link.
pub enum Bucket {
    Original(u16),
    Remapped(u16),
}

impl Bucket {
    pub open spec fn id_spec(self) -> u16 {
        match self {
            Bucket::Original(v) => v,
            Bucket::Remapped(v) => v,
        }
    }

    /// The bucket id, whichever way it was reached.
    pub fn id(&self) -> (r: u16)
        ensures
            r == self.id_spec(),
    {
        match self {
            Bucket::Original(v) => *v,
            Bucket::Remapped(v) => *v,
        }
    }
}

/// The mathematical state of an anchor of capacity `capacity`.
///
/// `anchors[b]` is 0 for a working bucket and, for a removed one, the number
/// of working buckets right after its most recent removal. `removed` is the
/// stack of removed buckets (top last), `n` the number of working buckets,
/// `slots[..n]` the working buckets, `successors[b]` the bucket that took the
/// place of `b` when it was removed, and `positions[b]` the place of `b` in
/// `slots` when it last worked.
pub struct AnchorState {
    pub capacity: nat,
    pub anchors: Seq<u16>,
    pub removed: Seq<u16>,
    pub n: nat,
    pub slots: Seq<u16>,
    pub successors: Seq<u16>,
    pub positions: Seq<u16>,
}

/// The sequence `0, 1, ..., len - 1`.
pub open spec fn identity(len: nat) -> Seq<u16> {
    Seq::new(len, |i: int| i as u16)
}

impl AnchorState {
    /// The state right after construction with `w` of `cap` buckets working.
    pub open spec fn initial(cap: nat, w: nat) -> AnchorState {
        AnchorState {
            capacity: cap,
            anchors: Seq::new(cap, |b: int| if b < w { 0u16 } else { b as u16 }),
            removed: Seq::new((cap - w) as nat, |j: int| (cap - 1 - j) as u16),
            n: w,
            slots: identity(cap),
            successors: identity(cap),
            positions: identity(cap),
        }
    }

    /// Bucket `b` is in service: it stands among the first `n` slots, at its
    /// recorded position.
    pub open spec fn is_working(self, b: int) -> bool {
        &&& 0 <= b < self.capacity
        &&& self.positions[b] < self.n
        &&& self.slots[self.positions[b] as int] == b
    }

    /// The bucket whose removal left `m` buckets working (for `n <= m < capacity`).
    pub open spec fn removed_at_level(self, m: int) -> u16 {
        self.removed[self.capacity - 1 - m]
    }

    /// The working slots as they stood when `m` buckets were working, for
    /// `n <= m <= capacity`: with every bucket working they are the identity,
    /// and each removal moves the last slot into the place of the removed one.
    pub open spec fn snapshot(self, m: nat) -> Seq<u16>
        decreases self.capacity - m,
    {
        if m >= self.capacity {
            identity(self.capacity)
        } else {
            let s = self.snapshot(m + 1);
            let r = self.removed_at_level(m as int);
            s.update(self.positions[r as int] as int, s[m as int]).take(m as int)
        }
    }

    /// The invariant of the anchor's records.
    #[verifier::opaque]
    pub open spec fn wf(self) -> bool {
        &&& self.capacity <= u16::MAX
        &&& self.anchors.len() == self.capacity
        &&& self.slots.len() == self.capacity
        &&& self.successors.len() == self.capacity
        &&& self.positions.len() == self.capacity
        &&& self.n <= self.capacity
        &&& self.removed.len() == self.capacity - self.n
        &&& forall|j: int|
            0 <= j < self.removed.len() ==> {
                &&& #[trigger] self.removed[j] < self.capacity
                &&& self.anchors[self.removed[j] as int] == self.capacity - 1 - j
            }
        &&& forall|j: int|
            0 <= j < self.n ==> {
                &&& #[trigger] self.slots[j] < self.capacity
                &&& self.anchors[self.slots[j] as int] == 0
                &&& self.positions[self.slots[j] as int] == j
                &&& self.successors[self.slots[j] as int] == self.slots[j]
            }
        &&& forall|b: int|
            0 <= b < self.capacity ==> #[trigger] self.is_working(b) || self.removed.contains(
                b as u16,
            )
        &&& forall|j: int|
            0 <= j < self.removed.len() ==> {
                let r = #[trigger] self.removed[j];
                let m = self.capacity - 1 - j;
                &&& self.positions[r as int] <= m
                &&& self.snapshot((m + 1) as nat)[self.positions[r as int] as int] == r
                &&& self.successors[r as int] == self.snapshot((m + 1) as nat)[m]
            }
        &&& forall|j: int| 0 <= j < self.n ==> #[trigger] self.slots[j] == self.snapshot(self.n)[j]
        &&& forall|j: int|
            self.n <= j < self.capacity ==> #[trigger] self.slots[j] == self.snapshot(
                (j + 1) as nat,
            )[j]
    }

    /// The state after `add_bucket` (for `n < capacity`): the top of the
    /// stack is restored to the place it held when it was removed.
    pub open spec fn after_add(self) -> AnchorState {
        let b = self.removed.last();
        let l1 = self.positions.update(self.slots[self.n as int] as int, self.n as u16);
        AnchorState {
            capacity: self.capacity,
            anchors: self.anchors.update(b as int, 0),
            removed: self.removed.drop_last(),
            n: self.n + 1,
            slots: self.slots.update(l1[b as int] as int, b),
            successors: self.successors.update(b as int, b),
            positions: l1,
        }
    }

    /// The state after `remove_bucket(b)` (for a working `b`): the last
    /// working slot moves into the place of `b` and becomes its successor.
    pub open spec fn after_remove(self, b: u16) -> AnchorState {
        let n1 = (self.n - 1) as nat;
        let x = self.slots[n1 as int];
        let p = self.positions[b as int];
        AnchorState {
            capacity: self.capacity,
            anchors: self.anchors.update(b as int, n1 as u16),
            removed: self.removed.push(b),
            n: n1,
            slots: self.slots.update(p as int, x),
            successors: self.successors.update(b as int, x),
            positions: self.positions.update(x as int, p),
        }
    }

    /// Where a key that reached the removed bucket `b` goes next: a place in
    /// the snapshot of the slots right after `b` was removed.
    pub open spec fn next_bucket(self, k: u32, b: int) -> int {
        let m = self.anchors[b];
        let i = range_map_spec(fasthash_spec(b as u32, k), m as u32);
        self.snapshot(m as nat)[i] as int
    }

    /// The bucket that a key with hash `k` resolves to from bucket `b`, and
    /// whether some step of it followed a successor link.
    pub open spec fn resolve(self, k: u32, b: int) -> (int, bool)
        decreases self.anchors[b] as int,
    {
        if !(0 <= b < self.capacity) || self.anchors[b] == 0 {
            (b, false)
        } else {
            let m = self.anchors[b];
            let i = range_map_spec(fasthash_spec(b as u32, k), m as u32);
            let h = self.next_bucket(k, b);
            if 0 <= h < self.capacity && self.anchors[h] < self.anchors[b] {
                let (r, f) = self.resolve(k, h);
                (r, f || self.anchors[i] >= m)
            } else {
                (b, false)
            }
        }
    }

    /// The bucket that `get_bucket(k)` returns, and whether it is `Remapped`.
    pub open spec fn lookup(self, k: u32) -> (int, bool) {
        self.resolve(k, range_map_spec(k, self.capacity as u32))
    }

    /// The sizes that the invariant fixes.
    pub proof fn lemma_wf_sizes(self)
        requires
            self.wf(),
        ensures
            self.capacity <= u16::MAX,
            self.anchors.len() == self.capacity,
            self.slots.len() == self.capacity,
            self.successors.len() == self.capacity,
            self.positions.len() == self.capacity,
            self.n <= self.capacity,
            self.removed.len() == self.capacity - self.n,
    {
        reveal(AnchorState::wf);
    }

    /// Every bucket holds a level below the capacity; with one bucket working
    /// or more, a zero level marks exactly the working buckets.
    pub proof fn lemma_levels(self, b: int)
        requires
            self.wf(),
            0 <= b < self.capacity,
        ensures
            self.anchors[b] < self.capacity,
            self.is_working(b) ==> self.anchors[b] == 0,
            self.anchors[b] >= 1 ==> self.n <= self.anchors[b] && self.removed_at_level(
                self.anchors[b] as int,
            ) == b,
            self.n >= 1 && self.anchors[b] == 0 ==> self.is_working(b),
    {
        reveal(AnchorState::wf);
        if self.is_working(b) {
            let j = self.positions[b] as int;
            assert(self.slots[j] == b);
        } else {
            assert(self.removed.contains(b as u16));
            let j = choose|j: int| 0 <= j < self.removed.len() && self.removed[j] == b as u16;
            assert(self.removed[j] < self.capacity);
        }
    }

    /// A bucket on the stack of removed buckets is not working.
    pub proof fn lemma_removed_not_working(self, j: int)
        requires
            self.wf(),
            0 <= j < self.removed.len(),
        ensures
            self.removed[j] < self.capacity,
            !self.is_working(self.removed[j] as int),
    {
        reveal(AnchorState::wf);
        let b = self.removed[j] as int;
        self.lemma_levels(b);
    }

    /// Each snapshot of `m` slots holds `m` distinct buckets, all working at
    /// that time (their level is below `m`).
    pub proof fn lemma_snapshot(self, m: nat)
        requires
            self.wf(),
            self.n <= m <= self.capacity,
        ensures
            self.snapshot(m).len() == m,
            forall|j: int|
                0 <= j < m ==> #[trigger] self.snapshot(m)[j] < self.capacity
                    && self.anchors[self.snapshot(m)[j] as int] < m,
            forall|i: int, j: int|
                0 <= i < m && 0 <= j < m && i != j ==> self.snapshot(m)[i] != self.snapshot(
                    m,
                )[j],
        decreases self.capacity - m,
    {
        reveal(AnchorState::wf);
        if m >= self.capacity {
            assert forall|j: int| 0 <= j < m implies #[trigger] self.snapshot(m)[j] < self.capacity
                && self.anchors[self.snapshot(m)[j] as int] < m by {
                self.lemma_levels(j);
            }
        } else {
            self.lemma_snapshot(m + 1);
            let s = self.snapshot(m + 1);
            let jr = self.capacity - 1 - m;
            let r = self.removed[jr];
            assert(r == self.removed_at_level(m as int));
            let p = self.positions[r as int] as int;
            assert(self.anchors[r as int] == m);
            assert(p <= m && s[p] == r);
            assert forall|j: int| 0 <= j < m implies #[trigger] self.snapshot(m)[j] < self.capacity
                && self.anchors[self.snapshot(m)[j] as int] < m by {
                let e = self.snapshot(m)[j];
                if j == p {
                    assert(e == s[m as int]);
                } else {
                    assert(e == s[j]);
                }
                self.lemma_levels(e as int);
                if self.anchors[e as int] == m {
                    assert(e == r);
                }
            }
        }
    }

    /// Going down from `l` slots to `x` slots leaves a place unchanged while
    /// the bucket in it is older than every removal in between.
    pub proof fn lemma_snapshot_stable(self, x: nat, l: nat, i: int)
        requires
            self.wf(),
            self.n <= x <= l <= self.capacity,
            0 <= i < x,
            self.anchors[self.snapshot(l)[i] as int] < x,
        ensures
            self.snapshot(x)[i] == self.snapshot(l)[i],
        decreases l - x,
    {
        reveal(AnchorState::wf);
        if x < l {
            self.lemma_snapshot_stable(x + 1, l, i);
            self.lemma_snapshot(x + 1);
            let jr = self.capacity - 1 - x;
            let r = self.removed[jr];
            assert(r == self.removed_at_level(x as int));
            assert(self.anchors[r as int] == x);
        }
    }

    /// One step of the successor walk: from the bucket at place `i` of the
    /// snapshot of `l` slots, if it was removed at level `mb` or later, its
    /// successor is the bucket at place `i` of the snapshot of its own level.
    pub proof fn lemma_chase_step(self, mb: nat, l: nat, i: int)
        requires
            self.wf(),
            self.n <= mb <= l <= self.capacity,
            0 <= i < mb,
            self.anchors[self.snapshot(l)[i] as int] >= mb,
        ensures
            ({
                let h = self.snapshot(l)[i] as int;
                let l2 = self.anchors[h] as nat;
                &&& mb <= l2 < l
                &&& self.successors[h] == self.snapshot(l2)[i]
            }),
    {
        reveal(AnchorState::wf);
        self.lemma_snapshot(l);
        let h = self.snapshot(l)[i] as int;
        let l2 = self.anchors[h] as nat;
        self.lemma_levels(h);
        self.lemma_snapshot_stable(l2 + 1, l, i);
        self.lemma_snapshot(l2 + 1);
        let jr = self.capacity - 1 - l2;
        assert(self.removed[jr] == h);
        let s = self.snapshot(l2 + 1);
        assert(s[self.positions[h] as int] == h);
        assert(self.positions[h] == i);
    }

    /// Snapshots depend only on the buckets removed at each level and their
    /// positions, so two states that agree on those from level `lo` up agree
    /// on every snapshot from `lo` up.
    pub proof fn lemma_snapshot_frame(self, t: AnchorState, lo: nat, m: nat)
        requires
            self.capacity == t.capacity,
            lo <= m,
            forall|x: int|
                lo <= x < self.capacity ==> #[trigger] self.removed_at_level(x)
                    == t.removed_at_level(x) && self.positions[self.removed_at_level(x) as int]
                    == t.positions[self.removed_at_level(x) as int],
        ensures
            self.snapshot(m) == t.snapshot(m),
        decreases self.capacity - m,
    {
        reveal(AnchorState::wf);
        if m < self.capacity {
            self.lemma_snapshot_frame(t, lo, m + 1);
            assert(self.removed_at_level(m as int) == t.removed_at_level(m as int));
        }
    }

    /// The facts about `add_bucket` that the rest of its proof builds on:
    /// the popped bucket `b` returns to its place `p`, and the bucket that
    /// stood in for it goes back to the last slot.
    proof fn lemma_add_facts(self)
        requires
            self.wf(),
            self.n < self.capacity,
        ensures
            ({
                let t = self.after_add();
                let n = self.n as int;
                let b = self.removed.last();
                let big = self.snapshot((n + 1) as nat);
                let p = self.positions[b as int] as int;
                let x = self.slots[n];
                &&& b == self.removed_at_level(n)
                &&& b == self.removed[self.removed.len() - 1]
                &&& self.anchors[b as int] == n
                &&& b < self.capacity
                &&& big.len() == n + 1
                &&& p <= n && big[p] == b && x == big[n] && x < self.capacity
                &&& (x == b <==> p == n)
                &&& p < n ==> self.slots[p] == x && self.is_working(x as int)
                    && self.positions[x as int] == p
                &&& self.successors[b as int] == x
                &&& t.positions[b as int] == p
                &&& t.slots == self.slots.update(p, b)
                &&& forall|m: nat| n + 1 <= m ==> #[trigger] t.snapshot(m) == self.snapshot(m)
            }),
    {
        reveal(AnchorState::wf);
        let t = self.after_add();
        let n = self.n as int;
        let cap = self.capacity;
        let jt = self.removed.len() - 1;
        let b = self.removed.last();
        assert(self.removed[jt] == b);
        self.lemma_snapshot(n as nat);
        self.lemma_snapshot((n + 1) as nat);
        let big = self.snapshot((n + 1) as nat);
        let p = self.positions[b as int] as int;
        let x = self.slots[n];
        assert(x == big[n]);
        if p < n {
            assert(x == self.snapshot(n as nat)[p]);
            assert(x == self.slots[p]);
            assert(self.positions[x as int] == p);
        }
        assert forall|xl: int| n + 1 <= xl < cap implies #[trigger] self.removed_at_level(xl)
            == t.removed_at_level(xl) && self.positions[self.removed_at_level(xl) as int]
            == t.positions[self.removed_at_level(xl) as int] by {
            let jr = cap - 1 - xl;
            let r = self.removed[jr];
            assert(self.anchors[r as int] == xl);
            if r == x {
                self.lemma_levels(x as int);
            }
        }
        assert forall|m: nat| n + 1 <= m implies #[trigger] t.snapshot(m) == self.snapshot(m) by {
            self.lemma_snapshot_frame(t, (n + 1) as nat, m);
        }
    }

    /// After `add_bucket`, the working buckets are the old ones and the
    /// popped bucket.
    proof fn lemma_add_working(self)
        requires
            self.wf(),
            self.n < self.capacity,
        ensures
            self.after_add().is_working(self.removed.last() as int),
            forall|e: int|
                0 <= e < self.capacity && e != self.removed.last() ==> (
                #[trigger] self.after_add().is_working(e) <==> self.is_working(e)),
            forall|e: int|
                0 <= e < self.capacity ==> #[trigger] self.after_add().is_working(e)
                    || self.after_add().removed.contains(e as u16),
    {
        reveal(AnchorState::wf);
        self.lemma_add_facts();
        let t = self.after_add();
        let n = self.n as int;
        let cap = self.capacity;
        let b = self.removed.last();
        let p = self.positions[b as int] as int;
        let x = self.slots[n];
        let jt = self.removed.len() - 1;
        assert forall|e: int| 0 <= e < cap && e != b implies (#[trigger] t.is_working(e)
            <==> self.is_working(e)) by {
            if self.is_working(e) {
                let q = self.positions[e] as int;
                if e == x {
                    assert(t.slots[n] == x);
                } else {
                    assert(q != p);
                    assert(t.slots[q] == e);
                }
            } else if t.is_working(e) {
                let q = t.positions[e] as int;
                if e == x {
                    assert(p < n);
                } else {
                    assert(self.positions[e] == q);
                    if q == n {
                        assert(t.slots[n] == x);
                    } else {
                        assert(q != p);
                    }
                }
            }
        }
        assert forall|e: int| 0 <= e < cap implies #[trigger] t.is_working(e)
            || t.removed.contains(e as u16) by {
            if e != b && !self.is_working(e) {
                assert(self.removed.contains(e as u16));
                let j = choose|j: int| 0 <= j < self.removed.len() && self.removed[j] == e as u16;
                assert(j != jt);
                assert(t.removed[j] == e as u16);
            }
        }
    }

    /// After `add_bucket`, the records of the working slots hold.
    #[verifier::spinoff_prover]
    proof fn lemma_add_records(self)
        requires
            self.wf(),
            self.n < self.capacity,
        ensures
            ({
                let t = self.after_add();
                forall|j: int|
                    0 <= j < t.n ==> {
                        &&& #[trigger] t.slots[j] < t.capacity
                        &&& t.anchors[t.slots[j] as int] == 0
                        &&& t.positions[t.slots[j] as int] == j
                        &&& t.successors[t.slots[j] as int] == t.slots[j]
                    }
            }),
    {
        reveal(AnchorState::wf);
        self.lemma_add_facts();
        let t = self.after_add();
        let n = self.n as int;
        let b = self.removed.last();
        let p = self.positions[b as int] as int;
        let x = self.slots[n];
        assert forall|j: int| 0 <= j < t.n implies {
            &&& #[trigger] t.slots[j] < t.capacity
            &&& t.anchors[t.slots[j] as int] == 0
            &&& t.positions[t.slots[j] as int] == j
            &&& t.successors[t.slots[j] as int] == t.slots[j]
        } by {
            if j == p {
            } else if j == n {
                assert(t.slots[j] == x);
            } else {
                let e = self.slots[j];
                assert(self.positions[e as int] == j);
                assert(e != x);
                assert(e != b);
            }
        }
    }

    /// After `add_bucket`, the slots agree with the snapshots.
    #[verifier::spinoff_prover]
    proof fn lemma_add_slots(self)
        requires
            self.wf(),
            self.n < self.capacity,
        ensures
            ({
                let t = self.after_add();
                &&& forall|j: int| 0 <= j < t.n ==> #[trigger] t.slots[j] == t.snapshot(t.n)[j]
                &&& forall|j: int|
                    t.n <= j < t.capacity ==> #[trigger] t.slots[j] == t.snapshot(
                        (j + 1) as nat,
                    )[j]
            }),
    {
        reveal(AnchorState::wf);
        self.lemma_add_facts();
        let t = self.after_add();
        let n = self.n as int;
        let b = self.removed.last();
        let p = self.positions[b as int] as int;
        let big = self.snapshot((n + 1) as nat);
        assert forall|j: int| 0 <= j < t.n implies #[trigger] t.slots[j] == t.snapshot(t.n)[j] by {
            assert(t.snapshot(t.n) == big);
            if j != p && j < n {
                assert(self.slots[j] == self.snapshot(n as nat)[j]);
            }
        }
        assert forall|j: int| t.n <= j < t.capacity implies #[trigger] t.slots[j] == t.snapshot(
            (j + 1) as nat,
        )[j] by {
            assert(self.slots[j] == self.snapshot((j + 1) as nat)[j]);
            assert(t.snapshot((j + 1) as nat) == self.snapshot((j + 1) as nat));
        }
    }

    /// `add_bucket` keeps the state well formed and brings the top of the
    /// stack back into service; no other bucket changes between working and
    /// removed.
    pub proof fn lemma_after_add(self)
        requires
            self.wf(),
            self.n < self.capacity,
        ensures
            self.after_add().wf(),
            self.after_add().is_working(self.removed.last() as int),
            forall|e: int|
                0 <= e < self.capacity && e != self.removed.last() ==> (
                #[trigger] self.after_add().is_working(e) <==> self.is_working(e)),
    {
        reveal(AnchorState::wf);
        self.lemma_add_facts();
        self.lemma_add_working();
        self.lemma_add_records();
        self.lemma_add_slots();
        let t = self.after_add();
        let n = self.n as int;
        let cap = self.capacity;
        let b = self.removed.last();
        let x = self.slots[n];
        assert forall|j: int| 0 <= j < t.removed.len() implies {
            &&& #[trigger] t.removed[j] < t.capacity
            &&& t.anchors[t.removed[j] as int] == t.capacity - 1 - j
        } by {
            assert(t.removed[j] == self.removed[j]);
            assert(self.anchors[self.removed[j] as int] == cap - 1 - j);
        }
        assert forall|j: int| 0 <= j < t.removed.len() implies {
            let r = #[trigger] t.removed[j];
            let m = t.capacity - 1 - j;
            &&& t.positions[r as int] <= m
            &&& t.snapshot((m + 1) as nat)[t.positions[r as int] as int] == r
            &&& t.successors[r as int] == t.snapshot((m + 1) as nat)[m]
        } by {
            let r = self.removed[j];
            assert(t.removed[j] == r);
            assert(self.anchors[r as int] == cap - 1 - j);
            assert(r != b);
            if r == x {
                self.lemma_levels(x as int);
            }
            assert(t.snapshot((cap - j) as nat) == self.snapshot((cap - j) as nat));
        }
    }

    /// The facts about `remove_bucket(b)` that the rest of its proof builds
    /// on: the last working bucket `x` moves into the place `p` of `b`.
    proof fn lemma_remove_facts(self, b: u16)
        requires
            self.wf(),
            self.is_working(b as int),
        ensures
            ({
                let t = self.after_remove(b);
                let n = self.n as int;
                let n1 = n - 1;
                let p = self.positions[b as int] as int;
                let x = self.slots[n1];
                let big = self.snapshot(n as nat);
                &&& n >= 1
                &&& 0 <= p < n
                &&& big.len() == n
                &&& self.slots[p] == b
                &&& x == big[n1]
                &&& self.is_working(x as int)
                &&& (x == b <==> p == n1)
                &&& t.positions[b as int] == p
                &&& t.removed_at_level(n1) == b
                &&& self.anchors[b as int] == 0
                &&& forall|m: nat| n <= m ==> #[trigger] t.snapshot(m) == self.snapshot(m)
                &&& t.snapshot(n1 as nat) == big.update(p, big[n1]).take(n1)
            }),
    {
        reveal(AnchorState::wf);
        let t = self.after_remove(b);
        let n = self.n as int;
        let n1 = n - 1;
        let cap = self.capacity;
        let p = self.positions[b as int] as int;
        let x = self.slots[n1];
        self.lemma_snapshot(n as nat);
        let big = self.snapshot(n as nat);
        assert(self.slots[p] == b);
        assert(x == big[n1]);
        assert(self.positions[x as int] == n1);
        assert(t.removed[cap - 1 - n1] == b);
        assert forall|xl: int| n <= xl < cap implies #[trigger] self.removed_at_level(xl)
            == t.removed_at_level(xl) && self.positions[self.removed_at_level(xl) as int]
            == t.positions[self.removed_at_level(xl) as int] by {
            let jr = cap - 1 - xl;
            let r = self.removed[jr];
            assert(t.removed[jr] == r);
            assert(self.anchors[r as int] == xl);
        }
        assert forall|m: nat| n <= m implies #[trigger] t.snapshot(m) == self.snapshot(m) by {
            self.lemma_snapshot_frame(t, n as nat, m);
        }
        assert(t.snapshot(n as nat) == big);
        assert(t.removed_at_level(n1) == b);
    }

    /// After `remove_bucket(b)`, the working buckets are the old ones but `b`.
    proof fn lemma_remove_working(self, b: u16)
        requires
            self.wf(),
            self.is_working(b as int),
        ensures
            !self.after_remove(b).is_working(b as int),
            forall|e: int|
                0 <= e < self.capacity && e != b ==> (#[trigger] self.after_remove(b).is_working(e)
                    <==> self.is_working(e)),
            forall|e: int|
                0 <= e < self.capacity ==> #[trigger] self.after_remove(b).is_working(e)
                    || self.after_remove(b).removed.contains(e as u16),
    {
        reveal(AnchorState::wf);
        self.lemma_remove_facts(b);
        let t = self.after_remove(b);
        let n = self.n as int;
        let n1 = n - 1;
        let cap = self.capacity;
        let p = self.positions[b as int] as int;
        let x = self.slots[n1];
        assert forall|e: int| 0 <= e < cap && e != b implies (#[trigger] t.is_working(e)
            <==> self.is_working(e)) by {
            if self.is_working(e) {
                let q = self.positions[e] as int;
                if e == x {
                    assert(t.slots[p] == x);
                } else {
                    assert(q != p && q != n1);
                    assert(t.slots[q] == e);
                }
            } else if t.is_working(e) {
                let q = t.positions[e] as int;
                if e != x {
                    assert(self.positions[e] == q);
                    if q == p {
                        assert(t.slots[p] == x);
                    }
                }
            }
        }
        assert forall|e: int| 0 <= e < cap implies #[trigger] t.is_working(e)
            || t.removed.contains(e as u16) by {
            if e == b {
                assert(t.removed[cap - 1 - n1] == b);
            } else if !self.is_working(e) {
                assert(self.removed.contains(e as u16));
                let j = choose|j: int| 0 <= j < self.removed.len() && self.removed[j] == e as u16;
                assert(t.removed[j] == e as u16);
            }
        }
        assert(!t.is_working(b as int)) by {
            if t.is_working(b as int) {
                if p < n1 {
                    assert(t.slots[p] == x);
                }
            }
        }
    }

    /// After `remove_bucket(b)`, the records of the working slots hold.
    proof fn lemma_remove_slots(self, b: u16)
        requires
            self.wf(),
            self.is_working(b as int),
        ensures
            ({
                let t = self.after_remove(b);
                &&& forall|j: int|
                    0 <= j < t.n ==> {
                        &&& #[trigger] t.slots[j] < t.capacity
                        &&& t.anchors[t.slots[j] as int] == 0
                        &&& t.positions[t.slots[j] as int] == j
                        &&& t.successors[t.slots[j] as int] == t.slots[j]
                    }
                &&& forall|j: int| 0 <= j < t.n ==> #[trigger] t.slots[j] == t.snapshot(t.n)[j]
                &&& forall|j: int|
                    t.n <= j < t.capacity ==> #[trigger] t.slots[j] == t.snapshot(
                        (j + 1) as nat,
                    )[j]
            }),
    {
        reveal(AnchorState::wf);
        self.lemma_remove_facts(b);
        let t = self.after_remove(b);
        let n = self.n as int;
        let n1 = n - 1;
        let p = self.positions[b as int] as int;
        let x = self.slots[n1];
        let big = self.snapshot(n as nat);
        assert forall|j: int| 0 <= j < t.n implies {
            &&& #[trigger] t.slots[j] < t.capacity
            &&& t.anchors[t.slots[j] as int] == 0
            &&& t.positions[t.slots[j] as int] == j
            &&& t.successors[t.slots[j] as int] == t.slots[j]
        } by {
            if j == p {
                assert(t.slots[j] == x);
            } else {
                let e = self.slots[j];
                assert(self.positions[e as int] == j);
                assert(e != x);
                assert(e != b);
            }
        }
        assert forall|j: int| 0 <= j < t.n implies #[trigger] t.slots[j] == t.snapshot(t.n)[j] by {
            assert(self.slots[j] == big[j]);
        }
        assert forall|j: int| t.n <= j < t.capacity implies #[trigger] t.slots[j] == t.snapshot(
            (j + 1) as nat,
        )[j] by {
            if j == n1 {
                assert(t.slots[n1] == x);
            } else {
                assert(self.slots[j] == self.snapshot((j + 1) as nat)[j]);
                assert(t.snapshot((j + 1) as nat) == self.snapshot((j + 1) as nat));
            }
        }
    }

    /// `remove_bucket(b)` keeps the state well formed and takes `b` out of
    /// service; no other bucket changes between working and removed.
    pub proof fn lemma_after_remove(self, b: u16)
        requires
            self.wf(),
            self.is_working(b as int),
        ensures
            self.after_remove(b).wf(),
            !self.after_remove(b).is_working(b as int),
            forall|e: int|
                0 <= e < self.capacity && e != b ==> (#[trigger] self.after_remove(b).is_working(e)
                    <==> self.is_working(e)),
    {
        reveal(AnchorState::wf);
        self.lemma_remove_facts(b);
        self.lemma_remove_working(b);
        self.lemma_remove_slots(b);
        let t = self.after_remove(b);
        let n = self.n as int;
        let n1 = n - 1;
        let cap = self.capacity;
        let x = self.slots[n1];
        assert forall|j: int| 0 <= j < t.removed.len() implies {
            &&& #[trigger] t.removed[j] < t.capacity
            &&& t.anchors[t.removed[j] as int] == t.capacity - 1 - j
        } by {
            if j < self.removed.len() {
                let r = self.removed[j];
                assert(t.removed[j] == r);
                self.lemma_levels(r as int);
            }
        }
        assert forall|j: int| 0 <= j < t.removed.len() implies {
            let r = #[trigger] t.removed[j];
            let m = t.capacity - 1 - j;
            &&& t.positions[r as int] <= m
            &&& t.snapshot((m + 1) as nat)[t.positions[r as int] as int] == r
            &&& t.successors[r as int] == t.snapshot((m + 1) as nat)[m]
        } by {
            if j < self.removed.len() {
                let r = self.removed[j];
                assert(t.removed[j] == r);
                assert(self.anchors[r as int] == cap - 1 - j);
                self.lemma_levels(x as int);
                assert(r != b);
                assert(r != x);
                assert(t.snapshot((cap - j) as nat) == self.snapshot((cap - j) as nat));
            } else {
                assert(t.removed[j] == b);
            }
        }
    }

    /// From any bucket, resolution ends on a working bucket while at least
    /// one bucket works.
    pub proof fn lemma_resolve_working(self, k: u32, b: int)
        requires
            self.wf(),
            self.n >= 1,
            0 <= b < self.capacity,
        ensures
            self.is_working(self.resolve(k, b).0),
        decreases self.anchors[b] as int,
    {
        reveal(AnchorState::wf);
        self.lemma_levels(b);
        if self.anchors[b] != 0 {
            let m = self.anchors[b];
            let i = range_map_spec(fasthash_spec(b as u32, k), m as u32);
            assert(0 <= i < m) by (nonlinear_arith)
                requires
                    i == (fasthash_spec(b as u32, k) as int * m as int) / 0x1_0000_0000,
                    0 <= fasthash_spec(b as u32, k) < 0x1_0000_0000,
                    m > 0,
            ;
            self.lemma_snapshot(m as nat);
            let h = self.next_bucket(k, b);
            assert(0 <= h < self.capacity && self.anchors[h] < m);
            self.lemma_resolve_working(k, h);
        }
    }

    /// The bucket `lookup(k)` gives is working while at least one bucket works.
    pub proof fn lemma_lookup_working(self, k: u32)
        requires
            self.wf(),
            self.n >= 1,
        ensures
            self.is_working(self.lookup(k).0),
    {
        reveal(AnchorState::wf);
        let c = range_map_spec(k, self.capacity as u32);
        assert(0 <= c < self.capacity) by (nonlinear_arith)
            requires
                c == (k as int * self.capacity as int) / 0x1_0000_0000,
                0 <= k < 0x1_0000_0000,
                self.capacity > 0,
        ;
        self.lemma_resolve_working(k, c);
    }

    /// A resolution that does not end on `b` takes the same path after `b`
    /// is removed.
    proof fn lemma_resolve_after_remove(self, b: u16, k: u32, c: int)
        requires
            self.wf(),
            self.is_working(b as int),
            0 <= c < self.capacity,
            self.resolve(k, c).0 != b,
        ensures
            self.after_remove(b).resolve(k, c) == self.resolve(k, c),
        decreases self.anchors[c] as int,
    {
        reveal(AnchorState::wf);
        let t = self.after_remove(b);
        self.lemma_remove_facts(b);
        self.lemma_levels(c);
        if self.anchors[c] != 0 {
            let m = self.anchors[c];
            let i = range_map_spec(fasthash_spec(c as u32, k), m as u32);
            assert(0 <= i < m) by (nonlinear_arith)
                requires
                    i == (fasthash_spec(c as u32, k) as int * m as int) / 0x1_0000_0000,
                    0 <= fasthash_spec(c as u32, k) < 0x1_0000_0000,
                    m > 0,
            ;
            self.lemma_snapshot(m as nat);
            assert(t.snapshot(m as nat) == self.snapshot(m as nat));
            let h = self.next_bucket(k, c);
            assert(t.next_bucket(k, c) == h);
            assert(self.resolve(k, c).0 == self.resolve(k, h).0);
            assert(h != b);
            self.lemma_resolve_after_remove(b, k, h);
        }
    }

    /// Removing a working bucket `b` moves exactly the keys that resolved to
    /// `b`: every other key keeps its bucket, and those keys go to buckets
    /// that still work. Adding a bucket right after brings `b` back and
    /// restores the state exactly, so every key returns to its old bucket.
    pub proof fn lemma_minimal_disruption(self, b: u16, k: u32)
        requires
            self.wf(),
            self.is_working(b as int),
            self.n >= 2,
        ensures
            self.lookup(k).0 != b ==> self.after_remove(b).lookup(k) == self.lookup(k),
            self.after_remove(b).lookup(k).0 != b,
            self.after_remove(b).is_working(self.after_remove(b).lookup(k).0),
            self.after_remove(b).removed.last() == b,
            self.after_remove(b).after_add() == self,
    {
        reveal(AnchorState::wf);
        let t = self.after_remove(b);
        self.lemma_after_remove(b);
        self.lemma_remove_facts(b);
        let c = range_map_spec(k, self.capacity as u32);
        assert(0 <= c < self.capacity) by (nonlinear_arith)
            requires
                c == (k as int * self.capacity as int) / 0x1_0000_0000,
                0 <= k < 0x1_0000_0000,
                self.capacity > 0,
        ;
        if self.lookup(k).0 != b {
            self.lemma_resolve_after_remove(b, k, c);
        }
        t.lemma_lookup_working(k);
        self.lemma_remove_then_add(b);
    }

    /// `remove_bucket(b)` followed by `add_bucket` restores the state.
    pub proof fn lemma_remove_then_add(self, b: u16)
        requires
            self.wf(),
            self.is_working(b as int),
        ensures
            self.after_remove(b).removed.last() == b,
            self.after_remove(b).after_add() == self,
    {
        reveal(AnchorState::wf);
        self.lemma_remove_facts(b);
        let t = self.after_remove(b);
        let u = t.after_add();
        let n1 = self.n - 1;
        let x = self.slots[n1 as int];
        let p = self.positions[b as int] as int;
        assert(t.slots[n1 as int] == x);
        assert(self.positions[x as int] == n1);
        assert(u.positions =~= self.positions);
        assert(u.slots =~= self.slots);
        assert(u.successors =~= self.successors);
        assert(u.anchors =~= self.anchors);
        assert(u.removed =~= self.removed);
    }

    /// `add_bucket` followed by `remove_bucket` of the bucket it returned
    /// restores the state.
    pub proof fn lemma_add_then_remove(self)
        requires
            self.wf(),
            self.n < self.capacity,
        ensures
            self.after_add().after_remove(self.removed.last()) == self,
    {
        reveal(AnchorState::wf);
        self.lemma_add_facts();
        let b = self.removed.last();
        let t = self.after_add();
        let u = t.after_remove(b);
        let n = self.n as int;
        let x = self.slots[n];
        let p = self.positions[b as int] as int;
        assert(t.slots[n] == x);
        assert(u.positions =~= self.positions);
        assert(u.slots =~= self.slots);
        assert(u.successors =~= self.successors);
        assert(u.anchors =~= self.anchors);
        assert(u.removed =~= self.removed);
    }

    /// The snapshots of the initial state are the identity.
    pub proof fn lemma_initial_snapshot(cap: nat, w: nat, m: nat)
        requires
            w <= m <= cap,
        ensures
            Self::initial(cap, w).snapshot(m) == identity(m),
        decreases cap - m,
    {
        reveal(AnchorState::wf);
        let s = Self::initial(cap, w);
        if m < cap {
            Self::lemma_initial_snapshot(cap, w, m + 1);
            assert(s.removed_at_level(m as int) == m as u16);
            assert(s.snapshot(m) =~= identity(m));
        }
    }

    /// The initial state is well formed, with exactly the first `w` buckets
    /// working.
    pub proof fn lemma_initial(cap: nat, w: nat)
        requires
            w <= cap <= u16::MAX,
        ensures
            Self::initial(cap, w).wf(),
            forall|b: int|
                0 <= b < cap ==> (#[trigger] Self::initial(cap, w).is_working(b) <==> b < w),
    {
        reveal(AnchorState::wf);
        let s = Self::initial(cap, w);
        assert forall|m: nat| w <= m <= cap implies #[trigger] s.snapshot(m) == identity(m) by {
            Self::lemma_initial_snapshot(cap, w, m);
        }
        assert forall|b: int| 0 <= b < cap implies #[trigger] s.is_working(b) || s.removed.contains(
            b as u16,
        ) by {
            if b >= w {
                assert(s.removed[cap - 1 - b] == b as u16);
            }
        }
        assert forall|j: int| 0 <= j < s.removed.len() implies {
            let r = #[trigger] s.removed[j];
            let m = s.capacity - 1 - j;
            &&& s.positions[r as int] <= m
            &&& s.snapshot((m + 1) as nat)[s.positions[r as int] as int] == r
            &&& s.successors[r as int] == s.snapshot((m + 1) as nat)[m]
        } by {
            let m = cap - 1 - j;
            assert(s.snapshot((m + 1) as nat) == identity((m + 1) as nat));
        }
        assert forall|j: int| 0 <= j < s.n implies #[trigger] s.slots[j] == s.snapshot(s.n)[j] by {
            assert(s.snapshot(w) == identity(w));
        }
        assert forall|j: int| s.n <= j < s.capacity implies #[trigger] s.slots[j] == s.snapshot(
            (j + 1) as nat,
        )[j] by {
            assert(s.snapshot((j + 1) as nat) == identity((j + 1) as nat));
        }
    }
}

/// The anchor of a consistent hash: the working and removed buckets of a
/// fixed capacity, with the records that let a key resolve to a working
/// bucket in expected constant time.
#[derive(Debug)]
pub struct Anchor {
    capacity: u16,
    anchors: Vec<u16>,
    removed: Vec<u16>,
    working: u16,
    slots: Vec<u16>,
    successors: Vec<u16>,
    positions: Vec<u16>,
}

impl View for Anchor {
    type V = AnchorState;

    closed spec fn view(&self) -> AnchorState {
        AnchorState {
            capacity: self.capacity as nat,
            anchors: self.anchors@,
            removed: self.removed@,
            n: self.working as nat,
            slots: self.slots@,
            successors: self.successors@,
            positions: self.positions@,
        }
    }
}

impl Clone for Anchor {
    /// A deep copy: new arrays holding the same records.
    fn clone(&self) -> (r: Self)
        ensures
            r@ == self@,
    {
        let r = Anchor {
            capacity: self.capacity,
            anchors: self.anchors.clone(),
            removed: self.removed.clone(),
            working: self.working,
            slots: self.slots.clone(),
            successors: self.successors.clone(),
            positions: self.positions.clone(),
        };
        proof {
            assert(r.anchors@ =~= self.anchors@);
            assert(r.removed@ =~= self.removed@);
            assert(r.slots@ =~= self.slots@);
            assert(r.successors@ =~= self.successors@);
            assert(r.positions@ =~= self.positions@);
        }
        r
    }
}

impl Anchor {
    /// An anchor of `capacity` buckets with the first `working` of them in
    /// service.
    pub fn new(capacity: u16, working: u16) -> (r: Anchor)
        requires
            working <= capacity,
        ensures
            r@ == AnchorState::initial(capacity as nat, working as nat),
            r@.wf(),
            forall|b: int| 0 <= b < capacity ==> (#[trigger] r@.is_working(b) <==> b < working),
    {
        let mut anchors: Vec<u16> = Vec::new();
        let mut identity_list: Vec<u16> = Vec::new();
        let mut b: u16 = 0;
        while b < capacity
            invariant
                b <= capacity,
                working <= capacity,
                anchors@ =~= Seq::new(b as nat, |i: int| if i < working { 0u16 } else { i as u16 }),
                identity_list@ =~= identity(b as nat),
            decreases capacity - b,
        {
            if b < working {
                anchors.push(0);
            } else {
                anchors.push(b);
            }
            identity_list.push(b);
            b = b + 1;
        }
        let mut removed: Vec<u16> = Vec::new();
        let mut j: u16 = capacity;
        while j > working
            invariant
                working <= j <= capacity,
                removed@ =~= Seq::new(
                    (capacity - j) as nat,
                    |i: int| (capacity - 1 - i) as u16,
                ),
            decreases j,
        {
            j = j - 1;
            removed.push(j);
        }
        let r = Anchor {
            capacity,
            anchors,
            removed,
            working,
            slots: identity_list.clone(),
            successors: identity_list.clone(),
            positions: identity_list,
        };
        proof {
            AnchorState::lemma_initial(capacity as nat, working as nat);
            assert(r@ == AnchorState::initial(capacity as nat, working as nat));
        }
        r
    }

    /// The working bucket that the 32-bit key hash `k` maps to.
    ///
    /// The hash is first mapped onto all buckets; while the bucket reached
    /// is removed, the key is hashed again into the working set as it stood
    /// right after that removal, following successor links to find the
    /// bucket that held that place then.
    pub fn get_bucket(&self, k: u32) -> (r: Bucket)
        requires
            self@.wf(),
            self@.n >= 1,
        ensures
            (r.id_spec() as int, r is Remapped) == self@.lookup(k),
            self@.is_working(r.id_spec() as int),
            self@.anchors[r.id_spec() as int] == 0,
    {
        let ghost st = self@;
        proof {
            st.lemma_wf_sizes();
        }
        let mut b: usize = range_map(k, self.capacity as u32) as usize;
        let mut remapped = false;
        while self.anchors[b] > 0
            invariant
                st == self@,
                st.wf(),
                st.n >= 1,
                st.anchors.len() == st.capacity,
                st.successors.len() == st.capacity,
                st.capacity <= u16::MAX,
                b < st.capacity,
                st.lookup(k) == (st.resolve(k, b as int).0, st.resolve(k, b as int).1 || remapped),
            decreases self.anchors@[b as int],
        {
            let m = self.anchors[b];
            let bs = fasthash(b as u32, k);
            let mut h = range_map(bs, m as u32);
            let ghost i = h as int;
            let ghost mut l: nat = st.capacity;
            let ghost start_remapped = remapped;
            proof {
                st.lemma_levels(b as int);
                assert(st.snapshot(st.capacity) == identity(st.capacity));
            }
            while self.anchors[h as usize] >= m
                invariant
                    st == self@,
                    st.wf(),
                    st.n >= 1,
                    st.anchors.len() == st.capacity,
                    st.successors.len() == st.capacity,
                    st.capacity <= u16::MAX,
                    b < st.capacity,
                    m == st.anchors[b as int],
                    st.n <= m <= l <= st.capacity,
                    0 <= i < m,
                    h < st.capacity,
                    h == st.snapshot(l)[i],
                    l == st.capacity ==> h == i,
                    l < st.capacity ==> st.anchors[i] >= m,
                    remapped == (start_remapped || l < st.capacity),
                decreases l,
            {
                remapped = true;
                proof {
                    st.lemma_chase_step(m as nat, l, i);
                    l = st.anchors[h as int] as nat;
                    st.lemma_snapshot(l);
                }
                h = self.successors[h as usize] as u32;
            }
            proof {
                st.lemma_snapshot(l);
                st.lemma_snapshot_stable(m as nat, l, i);
                st.lemma_snapshot(m as nat);
            }
            b = h as usize;
        }
        proof {
            st.lemma_levels(b as int);
        }
        if remapped {
            Bucket::Remapped(b as u16)
        } else {
            Bucket::Original(b as u16)
        }
    }

    /// Bring the most recently removed bucket back into service, or return
    /// `None` when every bucket already works.
    pub fn add_bucket(&mut self) -> (r: Option<u16>)
        requires
            old(self)@.wf(),
        ensures
            final(self)@.wf(),
            old(self)@.n == old(self)@.capacity ==> r is None && final(self)@ == old(self)@,
            old(self)@.n < old(self)@.capacity ==> r == Some(old(self)@.removed.last())
                && final(self)@ == old(self)@.after_add(),
            r matches Some(b) ==> final(self)@.is_working(b as int),
            forall|e: int|
                0 <= e < old(self)@.capacity && r != Some(e as u16) ==> (
                #[trigger] final(self)@.is_working(e) <==> old(self)@.is_working(e)),
    {
        let ghost st = self@;
        proof {
            st.lemma_wf_sizes();
        }
        if self.working >= self.capacity {
            return None;
        }
        proof {
            st.lemma_after_add();
            st.lemma_add_facts();
        }
        let b = self.removed.pop().unwrap();
        let bu = b as usize;
        let n = self.working as usize;
        self.anchors.set(bu, 0);
        let x = self.slots[n] as usize;
        self.positions.set(x, self.working);
        let p = self.positions[bu] as usize;
        self.slots.set(p, b);
        self.successors.set(bu, b);
        self.working = self.working + 1;
        proof {
            let t = st.after_add();
            assert(self.anchors@ =~= t.anchors);
            assert(self.removed@ =~= t.removed);
            assert(self.positions@ =~= t.positions);
            assert(self.slots@ =~= t.slots);
            assert(self.successors@ =~= t.successors);
            assert(self@ =~= t);
        }
        Some(b)
    }

    /// Take the working bucket `b` out of service.
    pub fn remove_bucket(&mut self, b: u16)
        requires
            old(self)@.wf(),
            old(self)@.is_working(b as int),
        ensures
            final(self)@ == old(self)@.after_remove(b),
            final(self)@.wf(),
            !final(self)@.is_working(b as int),
            forall|e: int|
                0 <= e < old(self)@.capacity && e != b ==> (#[trigger] final(self)@.is_working(e)
                    <==> old(self)@.is_working(e)),
    {
        let ghost st = self@;
        proof {
            st.lemma_wf_sizes();
            st.lemma_after_remove(b);
            st.lemma_remove_facts(b);
        }
        let bu = b as usize;
        self.removed.push(b);
        self.working = self.working - 1;
        let n = self.working as usize;
        self.anchors.set(bu, self.working);
        let x = self.slots[n];
        let p = self.positions[bu];
        self.slots.set(p as usize, x);
        self.successors.set(bu, x);
        self.positions.set(x as usize, p);
        proof {
            assert(self@ =~= st.after_remove(b));
        }
    }

    /// The working buckets, in increasing order.
    pub fn working_buckets(&self) -> (r: Vec<u16>)
        requires
            self@.wf(),
        ensures
            forall|i: int, j: int| 0 <= i < j < r@.len() ==> r@[i] < r@[j],
            forall|b: int| 0 <= b < self@.capacity ==> (r@.contains(b as u16) <==> #[trigger] self@.is_working(b)),
            forall|i: int| 0 <= i < r@.len() ==> #[trigger] r@[i] < self@.capacity,
    {
        let mut r: Vec<u16> = Vec::new();
        proof {
            self@.lemma_wf_sizes();
        }
        if self.working == 0 {
            proof {
                assert forall|b: int| 0 <= b < self@.capacity implies !(#[trigger] self@.is_working(b)) by {}
            }
            return r;
        }
        let mut b: u16 = 0;
        while b < self.capacity
            invariant
                self@.wf(),
                self@.n >= 1,
                self@.anchors.len() == self@.capacity,
                b <= self@.capacity,
                forall|i: int, j: int| 0 <= i < j < r@.len() ==> r@[i] < r@[j],
                forall|i: int| 0 <= i < r@.len() ==> #[trigger] r@[i] < b,
                forall|c: int| 0 <= c < b ==> (r@.contains(c as u16) <==> #[trigger] self@.is_working(c)),
            decreases self@.capacity - b,
        {
            proof {
                self@.lemma_levels(b as int);
            }
            let ghost r0 = r@;
            if self.anchors[b as usize] == 0 {
                r.push(b);
            }
            proof {
                assert forall|c: int| 0 <= c < b + 1 implies (r@.contains(c as u16)
                    <==> #[trigger] self@.is_working(c)) by {
                    if r@.contains(c as u16) {
                        let i = choose|i: int| 0 <= i < r@.len() && r@[i] == c as u16;
                        if c < b {
                            assert(r0[i] == c as u16);
                        }
                    }
                    if c < b && self@.is_working(c) {
                        let i = choose|i: int| 0 <= i < r0.len() && r0[i] == c as u16;
                        assert(r@[i] == c as u16);
                    }
                    if c == b && self@.is_working(c) {
                        assert(r@[r@.len() - 1] == c as u16);
                    }
                }
            }
            b = b + 1;
        }
        r
    }

    /// The capacity: the number of buckets, working or not.
    pub fn capacity(&self) -> (r: u16)
        ensures
            r == self@.capacity,
    {
        self.capacity
    }

    /// The number of working buckets.
    pub fn working_count(&self) -> (r: u16)
        ensures
            r == self@.n,
    {
        self.working
    }

    /// For each bucket, 0 if it works, else the number of working buckets
    /// right after its most recent removal.
    pub fn anchor_values(&self) -> (r: &Vec<u16>)
        ensures
            r@ == self@.anchors,
    {
        &self.anchors
    }

    /// The stack of removed buckets, the most recently removed last.
    pub fn removed_stack(&self) -> (r: &Vec<u16>)
        ensures
            r@ == self@.removed,
    {
        &self.removed
    }

    /// The slots; the first `working_count()` of them hold the working buckets.
    pub fn working_slots(&self) -> (r: &Vec<u16>)
        ensures
            r@ == self@.slots,
    {
        &self.slots
    }

    /// For each bucket, the bucket that took its place at its last removal
    /// (itself while it works).
    pub fn successors(&self) -> (r: &Vec<u16>)
        ensures
            r@ == self@.successors,
    {
        &self.successors
    }

    /// For each bucket, its place among the slots when it last worked.
    pub fn last_positions(&self) -> (r: &Vec<u16>)
        ensures
            r@ == self@.positions,
    {
        &self.positions
    }
}

} // verus!
