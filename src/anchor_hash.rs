//! Binding working buckets to caller-owned resources, and looking keys up.
use vstd::prelude::*;
use vstd::std_specs::cmp::PartialEqSpec;

use std::collections::hash_map::RandomState;
use std::hash::{BuildHasher, Hash};
use std::marker::PhantomData;

use crate::anchor::{Anchor, AnchorState};

verus! {

/// Errors returned when operating on an [`AnchorHash`] instance.
#[derive(Debug, PartialEq, Eq, Clone, Copy, Structural)]
pub enum Error {
    /// A new bucket cannot be added as every bucket of the configured
    /// capacity already holds a resource.
    CapacityLimitReached,
    /// No registered resource equals the one given.
    ResourceNotFound,
}

/// The resources held by the slots, in bucket order.
pub open spec fn present<R>(s: Seq<Option<R>>) -> Seq<R>
    decreases s.len(),
{
    if s.len() == 0 {
        Seq::empty()
    } else {
        let rest = present(s.drop_last());
        match s.last() {
            Some(v) => rest.push(v),
            None => rest,
        }
    }
}

/// Replacing one slot changes the number of resources by what it took away
/// and what it put in.
pub proof fn lemma_present_update<R>(s: Seq<Option<R>>, i: int, o: Option<R>)
    requires
        0 <= i < s.len(),
    ensures
        present(s.update(i, o)).len() == present(s).len() - (if s[i] is Some {
            1int
        } else {
            0int
        }) + (if o is Some {
            1int
        } else {
            0int
        }),
    decreases s.len(),
{
    if i == s.len() - 1 {
        assert(s.update(i, o).drop_last() =~= s.drop_last());
    } else {
        lemma_present_update(s.drop_last(), i, o);
        assert(s.update(i, o).drop_last() =~= s.drop_last().update(i, o));
    }
}

/// Two slot sequences of one length with resources in the same places.
pub open spec fn same_shape<R>(a: Seq<Option<R>>, b: Seq<Option<R>>) -> bool {
    &&& a.len() == b.len()
    &&& forall|i: int| 0 <= i < a.len() ==> (#[trigger] a[i] is Some) == (b[i] is Some)
}

/// Slots of the same shape hold the same number of resources.
pub broadcast proof fn lemma_same_shape_present<R>(a: Seq<Option<R>>, b: Seq<Option<R>>)
    requires
        #[trigger] same_shape(a, b),
    ensures
        present(a).len() == present(b).len(),
    decreases a.len(),
{
    if a.len() > 0 {
        assert(a.last() is Some == b.last() is Some);
        lemma_same_shape_present(a.drop_last(), b.drop_last());
    }
}

/// Slots that are all empty hold no resource.
pub proof fn lemma_present_none<R>(len: nat)
    ensures
        present(Seq::new(len, |b: int| None::<R>)).len() == 0,
    decreases len,
{
    if len > 0 {
        lemma_present_none::<R>((len - 1) as nat);
        assert(Seq::new(len, |b: int| None::<R>).drop_last() =~= Seq::new(
            (len - 1) as nat,
            |b: int| None::<R>,
        ));
    }
}

/// The mathematical state of an [`AnchorHash`]: its anchor, and for each
/// bucket the resource bound to it, if any.
pub struct BindingState<R> {
    pub anchor: AnchorState,
    pub resources: Seq<Option<R>>,
}

/// A change to the resources of an [`AnchorHash`].
pub enum Change<R> {
    Add(R),
    Remove(R),
}

impl<R> BindingState<R> {
    /// A resource is bound to exactly the working buckets.
    pub open spec fn wf(self) -> bool {
        &&& self.anchor.wf()
        &&& self.resources.len() == self.anchor.capacity
        &&& forall|b: int|
            0 <= b < self.anchor.capacity ==> (#[trigger] self.resources[b] is Some
                <==> self.anchor.is_working(b))
        &&& present(self.resources).len() == self.anchor.n
    }

    /// The state with no resource and no working bucket.
    pub open spec fn empty(cap: nat) -> Self {
        BindingState {
            anchor: AnchorState::initial(cap, 0),
            resources: Seq::new(cap, |b: int| None::<R>),
        }
    }

    /// The resource that a key with 32-bit hash `h` maps to.
    pub open spec fn lookup(self, h: u32) -> Option<R> {
        if self.anchor.n == 0 {
            None
        } else {
            self.resources[self.anchor.lookup(h).0]
        }
    }

    /// The state after `add_resource(r)`: `r` bound to the bucket that the
    /// anchor brings back, or no change when the capacity is reached.
    pub open spec fn added(self, r: R) -> Self {
        if self.anchor.n < self.anchor.capacity {
            BindingState {
                anchor: self.anchor.after_add(),
                resources: self.resources.update(self.anchor.removed.last() as int, Some(r)),
            }
        } else {
            self
        }
    }

    /// The state after the resource of bucket `b` is removed.
    pub open spec fn without(self, b: int) -> Self {
        BindingState {
            anchor: self.anchor.after_remove(b as u16),
            resources: self.resources.update(b, None),
        }
    }

    /// The state of a binding of capacity `cap` built with the resources
    /// `rs`, added in order.
    pub open spec fn built(cap: nat, rs: Seq<R>) -> Self
        decreases rs.len(),
    {
        if rs.len() == 0 {
            Self::empty(cap)
        } else {
            Self::built(cap, rs.drop_last()).added(rs.last())
        }
    }

    /// Adding keeps the state well formed; on success one more resource is
    /// held.
    pub proof fn lemma_added(self, r: R)
        requires
            self.wf(),
        ensures
            self.added(r).wf(),
            present(self.added(r).resources).len() == present(self.resources).len() + (
            if self.anchor.n < self.anchor.capacity {
                1int
            } else {
                0int
            }),
    {
        if self.anchor.n < self.anchor.capacity {
            let t = self.added(r);
            let b = self.anchor.removed.last();
            self.anchor.lemma_after_add();
            self.anchor.lemma_wf_sizes();
            self.anchor.after_add().lemma_wf_sizes();
            self.anchor.lemma_levels(b as int);
            assert(self.anchor.removed.contains(b));
            assert(self.anchor.removed[self.anchor.removed.len() - 1] == b);
            self.anchor.lemma_removed_not_working(self.anchor.removed.len() - 1);
            lemma_present_update(self.resources, b as int, Some(r));
            assert forall|e: int| 0 <= e < t.anchor.capacity implies (#[trigger] t.resources[e] is Some
                <==> t.anchor.is_working(e)) by {
                if e != b {
                    assert(t.resources[e] == self.resources[e]);
                }
            }
        }
    }

    /// Removing the resource of a working bucket keeps the state well formed,
    /// with one resource fewer.
    pub proof fn lemma_without(self, b: int)
        requires
            self.wf(),
            0 <= b < self.anchor.capacity,
            self.resources[b] is Some,
        ensures
            self.without(b).wf(),
            present(self.without(b).resources).len() == present(self.resources).len() - 1,
    {
        let t = self.without(b);
        self.anchor.lemma_after_remove(b as u16);
        self.anchor.lemma_wf_sizes();
        self.anchor.after_remove(b as u16).lemma_wf_sizes();
        lemma_present_update(self.resources, b, None);
        assert forall|e: int| 0 <= e < t.anchor.capacity implies (#[trigger] t.resources[e] is Some
            <==> t.anchor.is_working(e)) by {
            if e != b {
                assert(t.resources[e] == self.resources[e]);
            }
        }
    }
}

impl<R: PartialEq> BindingState<R> {
    /// Bucket `b` holds a resource equal to `r`.
    pub open spec fn holds_match(self, r: R, b: int) -> bool {
        &&& 0 <= b < self.resources.len()
        &&& self.resources[b] is Some
        &&& self.resources[b]->Some_0.eq_spec(&r)
    }

    /// Bucket `b` is the first that holds a resource equal to `r`.
    pub open spec fn first_match(self, r: R, b: int) -> bool {
        &&& self.holds_match(r, b)
        &&& forall|c: int| 0 <= c < b ==> !self.holds_match(r, c)
    }

    /// The state after `remove_resource(&r)`: the first bucket holding a
    /// resource equal to `r` is removed, or nothing changes when none does.
    pub open spec fn removal_of(self, r: R) -> Self {
        if exists|b: int| self.first_match(r, b) {
            self.without(choose|b: int| self.first_match(r, b))
        } else {
            self
        }
    }

    /// Whether applying `c` succeeds.
    pub open spec fn succeeds(self, c: Change<R>) -> bool {
        match c {
            Change::Add(_) => self.anchor.n < self.anchor.capacity,
            Change::Remove(r) => exists|b: int| self.holds_match(r, b),
        }
    }

    /// The state after applying `c`.
    pub open spec fn apply(self, c: Change<R>) -> Self {
        match c {
            Change::Add(r) => self.added(r),
            Change::Remove(r) => self.removal_of(r),
        }
    }

    /// The state after applying `ops` in order.
    pub open spec fn replay(self, ops: Seq<Change<R>>) -> Self
        decreases ops.len(),
    {
        if ops.len() == 0 {
            self
        } else {
            self.replay(ops.drop_last()).apply(ops.last())
        }
    }

    /// The successful additions in `ops` less the successful removals.
    pub open spec fn net_added(self, ops: Seq<Change<R>>) -> int
        decreases ops.len(),
    {
        if ops.len() == 0 {
            0
        } else {
            let before = self.replay(ops.drop_last());
            let d = if !before.succeeds(ops.last()) {
                0int
            } else if ops.last() is Add {
                1int
            } else {
                -1int
            };
            self.net_added(ops.drop_last()) + d
        }
    }

    /// Some bucket holding an equal resource makes one the first.
    pub proof fn lemma_first_match_exists(self, r: R, b: int)
        requires
            self.holds_match(r, b),
        ensures
            exists|c: int| self.first_match(r, c),
        decreases b,
    {
        if !self.first_match(r, b) {
            let c = choose|c: int| 0 <= c < b && self.holds_match(r, c);
            self.lemma_first_match_exists(r, c);
        }
    }

    /// At most one bucket is the first to hold a resource equal to `r`.
    pub proof fn lemma_first_match_unique(self, r: R, b: int, c: int)
        requires
            self.first_match(r, b),
            self.first_match(r, c),
        ensures
            b == c,
    {
    }

    /// Applying a change keeps the state well formed and changes the number
    /// of resources by one exactly when it succeeds.
    pub proof fn lemma_apply(self, c: Change<R>)
        requires
            self.wf(),
        ensures
            self.apply(c).wf(),
            present(self.apply(c).resources).len() == present(self.resources).len() + (
            if !self.succeeds(c) {
                0int
            } else if c is Add {
                1int
            } else {
                -1int
            }),
    {
        match c {
            Change::Add(r) => {
                self.lemma_added(r);
            },
            Change::Remove(r) => {
                if exists|b: int| self.holds_match(r, b) {
                    let b0 = choose|b: int| self.holds_match(r, b);
                    self.lemma_first_match_exists(r, b0);
                    let b = choose|b: int| self.first_match(r, b);
                    self.lemma_without(b);
                } else {
                    assert(!exists|b: int| self.first_match(r, b));
                }
            },
        }
    }
}

/// Removing a working bucket moves only the keys whose bucket it was: every
/// other key keeps its resource.
pub proof fn lemma_remove_keeps_other_keys<R>(s: BindingState<R>, b: int, h: u32)
    requires
        s.wf(),
        0 <= b < s.anchor.capacity,
        s.resources[b] is Some,
        s.anchor.n >= 2,
        s.anchor.lookup(h).0 != b,
    ensures
        s.without(b).lookup(h) == s.lookup(h),
{
    s.anchor.lemma_minimal_disruption(b as u16, h);
    s.anchor.lemma_after_remove(b as u16);
    s.anchor.lemma_lookup_working(h);
}

/// Capacity: adding succeeds exactly when some bucket is not working.
pub proof fn lemma_capacity<R: PartialEq>(s: BindingState<R>, r: R)
    requires
        s.wf(),
    ensures
        s.succeeds(Change::Add(r)) <==> s.anchor.n < s.anchor.capacity,
        !s.succeeds(Change::Add(r)) ==> s.added(r) == s,
{
}

/// Adding a resource that no held resource equals and then removing it
/// restores the state, so every key maps as before.
pub proof fn lemma_add_then_remove_resource<R: PartialEq>(s: BindingState<R>, r: R)
    requires
        s.wf(),
        R::obeys_eq_spec(),
        r.eq_spec(&r),
        forall|b: int| !s.holds_match(r, b),
    ensures
        s.added(r).removal_of(r) == s,
        forall|h: u32| #[trigger] s.added(r).removal_of(r).lookup(h) == s.lookup(h),
{
    if s.anchor.n < s.anchor.capacity {
        let t = s.added(r);
        let b0 = s.anchor.removed.last() as int;
        s.anchor.lemma_wf_sizes();
        s.anchor.lemma_removed_not_working(s.anchor.removed.len() - 1);
        s.anchor.lemma_add_then_remove();
        assert(s.anchor.removed[s.anchor.removed.len() - 1] == b0);
        assert(t.holds_match(r, b0));
        assert forall|c: int| c != b0 implies !t.holds_match(r, c) by {
            assert(!s.holds_match(r, c));
            if 0 <= c < t.resources.len() {
                assert(t.resources[c] == s.resources[c]);
            }
        }
        assert(t.first_match(r, b0));
        let b = choose|b: int| t.first_match(r, b);
        t.lemma_first_match_unique(r, b, b0);
        assert(t.without(b0).resources =~= s.resources);
    } else {
        assert(!exists|b: int| s.first_match(r, b));
    }
}

/// Determinism: bindings built with the same capacity and resources and
/// then given the same changes map every key hash to the same resource.
pub proof fn lemma_same_history_same_mapping<R: PartialEq>(
    x: BindingState<R>,
    y: BindingState<R>,
    cap: nat,
    rs: Seq<R>,
    ops: Seq<Change<R>>,
    h: u32,
)
    requires
        x == BindingState::<R>::built(cap, rs),
        y == BindingState::<R>::built(cap, rs),
    ensures
        x.replay(ops).lookup(h) == y.replay(ops).lookup(h),
        x.replay(ops) == y.replay(ops),
{
}

/// The number of resources held after a history of changes is the number
/// held before, plus the successful additions, less the successful removals.
pub proof fn lemma_resource_count<R: PartialEq>(s: BindingState<R>, ops: Seq<Change<R>>)
    requires
        s.wf(),
    ensures
        s.replay(ops).wf(),
        present(s.replay(ops).resources).len() == present(s.resources).len() + s.net_added(ops),
    decreases ops.len(),
{
    if ops.len() > 0 {
        lemma_resource_count(s, ops.drop_last());
        s.replay(ops.drop_last()).lemma_apply(ops.last());
    }
}

/// A consistent hash that maps keys of type `K` onto resources of type `R`,
/// hashing keys with the builder `B`.
///
/// Keys spread uniformly over the resources; removing a resource moves only
/// the keys that mapped to it, and adding one moves to it a fair share of
/// the keys and no others. Two instances with the same hasher and the same
/// history of changes map every key alike.
#[derive(Debug)]
pub struct AnchorHash<K, R, B> where K: Hash, B: BuildHasher {
    anchor: Anchor,
    hasher: B,
    resources: Vec<Option<R>>,
    _key_type: PhantomData<K>,
}

impl<K: Hash, R, B: BuildHasher> View for AnchorHash<K, R, B> {
    type V = BindingState<R>;

    closed spec fn view(&self) -> BindingState<R> {
        BindingState { anchor: self.anchor@, resources: self.resources@ }
    }
}

impl<K: Hash, R, B: BuildHasher> AnchorHash<K, R, B> {
    /// The builder that hashes keys.
    pub closed spec fn key_hasher(&self) -> B {
        self.hasher
    }

    /// An instance of capacity `capacity` with no resource.
    fn empty(capacity: u16, hasher: B) -> (r: Self)
        ensures
            r@ == BindingState::<R>::empty(capacity as nat),
            r@.wf(),
            r.key_hasher() == hasher,
    {
        let anchor = Anchor::new(capacity, 0);
        let mut resources: Vec<Option<R>> = Vec::new();
        let mut b: u16 = 0;
        while b < capacity
            invariant
                b <= capacity,
                resources@ =~= Seq::new(b as nat, |i: int| None::<R>),
            decreases capacity - b,
        {
            resources.push(None);
            b = b + 1;
        }
        let r = AnchorHash { anchor, hasher, resources, _key_type: PhantomData };
        proof {
            lemma_present_none::<R>(capacity as nat);
            assert(r@ == BindingState::<R>::empty(capacity as nat));
            assert forall|e: int| 0 <= e < capacity implies (#[trigger] r@.resources[e] is Some
                <==> r@.anchor.is_working(e)) by {}
        }
        r
    }

    /// The resource that a key with the 64-bit digest `hash` maps to: the
    /// digest is cut to its low 32 bits and resolved by the anchor.
    pub fn resource_for_hash(&self, hash: u64) -> (r: Option<&R>)
        requires
            self@.wf(),
        ensures
            r is Some <==> self@.anchor.n >= 1,
            r matches Some(v) ==> self@.lookup(hash as u32) == Some(*v),
            r is None ==> self@.lookup(hash as u32) is None,
    {
        if self.anchor.working_count() == 0 {
            return None;
        }
        let b = self.anchor.get_bucket(hash as u32);
        let id = b.id();
        proof {
            self@.anchor.lemma_wf_sizes();
        }
        match &self.resources[id as usize] {
            Some(v) => Some(v),
            None => None,
        }
    }

    /// Consistently hash `key` to one of the resources; `None` only when
    /// there is none.
    pub fn get_resource(&self, key: K) -> (r: Option<&R>)
        requires
            self@.wf(),
        ensures
            r is Some <==> self@.anchor.n >= 1,
            r matches Some(v) ==> exists|h: u32| self@.lookup(h) == Some(*v),
    {
        let hash = hash_key(&self.hasher, &key);
        self.resource_for_hash(hash)
    }

    /// Add `resource`, allowing keys to map to it; fails with
    /// `CapacityLimitReached` exactly when every bucket already works.
    pub fn add_resource(&mut self, resource: R) -> (r: Result<(), Error>)
        requires
            old(self)@.wf(),
        ensures
            final(self)@.wf(),
            final(self)@ == old(self)@.added(resource),
            final(self).key_hasher() == old(self).key_hasher(),
            r is Ok <==> old(self)@.anchor.n < old(self)@.anchor.capacity,
            r is Err ==> r == Err::<(), Error>(Error::CapacityLimitReached),
    {
        proof {
            self@.lemma_added(resource);
            self@.anchor.lemma_wf_sizes();
        }
        match self.anchor.add_bucket() {
            None => Err(Error::CapacityLimitReached),
            Some(b) => {
                self.resources.set(b as usize, Some(resource));
                Ok(())
            },
        }
    }

    /// The resources, in the order of their buckets.
    pub fn resources(&self) -> (r: Vec<&R>)
        requires
            self@.wf(),
        ensures
            r@.map_values(|v: &R| *v) == present(self@.resources),
            r@.len() == self@.anchor.n,
    {
        let mut out: Vec<&R> = Vec::new();
        let mut b: usize = 0;
        let n = self.resources.len();
        while b < n
            invariant
                n == self.resources@.len(),
                b <= n,
                out@.map_values(|v: &R| *v) == present(self.resources@.take(b as int)),
            decreases n - b,
        {
            proof {
                assert(self.resources@.take(b + 1).drop_last() =~= self.resources@.take(b as int));
            }
            let ghost before = out@;
            match &self.resources[b] {
                Some(v) => {
                    out.push(v);
                    proof {
                        assert(out@.map_values(|v: &R| *v) =~= before.map_values(|v: &R| *v).push(*v));
                    }
                },
                None => {},
            }
            b = b + 1;
        }
        proof {
            assert(self.resources@.take(n as int) =~= self.resources@);
        }
        out
    }

    /// Mutable references to the resources, in the order of their buckets.
    /// Changing resources through them keeps every bucket holding one.
    pub fn resources_mut(&mut self) -> (r: Vec<&mut R>)
        requires
            old(self)@.wf(),
        ensures
            r@.map_values(|v: &mut R| *v) == present(old(self)@.resources),
            r@.len() == old(self)@.anchor.n,
            final(self)@.anchor == old(self)@.anchor,
            final(self).key_hasher() == old(self).key_hasher(),
            same_shape(final(self)@.resources, old(self)@.resources),
            final(self)@.wf(),
    {
        broadcast use lemma_same_shape_present;

        let mut out: Vec<&mut R> = Vec::new();
        proof {
            assert(out@.map_values(|v: &mut R| *v) =~= Seq::<R>::empty());
        }
        collect_mut(self.resources.as_mut_slice(), &mut out);
        proof {
            assert(Seq::<R>::empty() + present(old(self)@.resources) =~= present(
                old(self)@.resources,
            ));
        }
        out
    }

    /// The resource bound to `bucket`, if any.
    pub fn resource_at(&self, bucket: u16) -> (r: Option<&R>)
        requires
            self@.wf(),
        ensures
            bucket < self@.anchor.capacity ==> (r matches Some(v) ==> self@.resources[bucket as int]
                == Some(*v)),
            bucket < self@.anchor.capacity ==> (r is None <==> self@.resources[bucket as int] is None),
            bucket >= self@.anchor.capacity ==> r is None,
    {
        if bucket as usize >= self.resources.len() {
            return None;
        }
        match &self.resources[bucket as usize] {
            Some(v) => Some(v),
            None => None,
        }
    }

    /// The anchor that assigns keys to buckets.
    pub fn anchor(&self) -> (r: &Anchor)
        ensures
            r@ == self@.anchor,
    {
        &self.anchor
    }
}

impl<K: Hash, R: PartialEq, B: BuildHasher> AnchorHash<K, R, B> {
    /// Remove the first resource (in bucket order) that equals `resource`,
    /// so that no key maps to it; fails with `ResourceNotFound`, changing
    /// nothing, when none does.
    pub fn remove_resource(&mut self, resource: &R) -> (r: Result<(), Error>)
        requires
            old(self)@.wf(),
        ensures
            final(self)@.wf(),
            R::obeys_eq_spec() ==> final(self)@ == old(self)@.removal_of(*resource),
            final(self).key_hasher() == old(self).key_hasher(),
            R::obeys_eq_spec() ==> (r is Ok <==> exists|b: int|
                old(self)@.holds_match(*resource, b)),
            r is Err ==> r == Err::<(), Error>(Error::ResourceNotFound) && final(self)@ == old(
                self,
            )@,
            r is Ok ==> exists|b: int|
                0 <= b < old(self)@.anchor.capacity && old(self)@.resources[b] is Some
                    && final(self)@ == old(self)@.without(b),
    {
        let ghost st = self@;
        proof {
            st.anchor.lemma_wf_sizes();
        }
        let n = self.resources.len();
        let mut b: usize = 0;
        while b < n
            invariant
                st == self@,
                st == old(self)@,
                self.key_hasher() == old(self).key_hasher(),
                st.wf(),
                n == st.resources.len(),
                n == st.anchor.capacity,
                b <= n,
                R::obeys_eq_spec() ==> forall|c: int| 0 <= c < b ==> !st.holds_match(*resource, c),
            decreases n - b,
        {
            let found = match &self.resources[b] {
                Some(v) => v.eq(resource),
                None => false,
            };
            if found {
                proof {
                    assert(st.resources[b as int] is Some);
                    st.lemma_without(b as int);
                    if R::obeys_eq_spec() {
                        assert(st.first_match(*resource, b as int));
                        let c = choose|c: int| st.first_match(*resource, c);
                        st.lemma_first_match_unique(*resource, b as int, c);
                    }
                }
                self.resources.set(b, None);
                self.anchor.remove_bucket(b as u16);
                proof {
                    assert(self@.resources =~= st.without(b as int).resources);
                    assert(self@ == st.without(b as int));
                    if R::obeys_eq_spec() {
                        assert(exists|c: int| st.first_match(*resource, c));
                        assert(st.removal_of(*resource) == st.without(b as int));
                    }
                }
                return Ok(());
            }
            b = b + 1;
        }
        proof {
            if R::obeys_eq_spec() {
                assert(!exists|c: int| st.first_match(*resource, c));
            }
        }
        Err(Error::ResourceNotFound)
    }
}

impl<K: Hash, R: PartialEq> AnchorHash<K, R, RandomState> {
    /// An instance holding `resources`, with capacity for exactly as many,
    /// and a randomly keyed hasher.
    pub fn from_resources(resources: Vec<R>) -> (r: Self)
        requires
            resources@.len() <= u16::MAX,
        ensures
            r@ == BindingState::<R>::built(resources@.len(), resources@),
            r@.wf(),
    {
        let n = resources.len() as u16;
        Builder::default().with_resources(resources).build(n)
    }
}

impl<K: Hash, R: Clone, B: BuildHasher + Clone> Clone for AnchorHash<K, R, B> {
    /// A deep copy: the same anchor records, and in each bucket a clone of
    /// its resource, so that every key maps to a clone of the same resource.
    fn clone(&self) -> (r: Self)
        ensures
            r@.anchor == self@.anchor,
            same_shape(r@.resources, self@.resources),
            forall|b: int|
                0 <= b < self@.resources.len() && #[trigger] self@.resources[b] is Some ==> cloned::<
                    R,
                >(self@.resources[b]->Some_0, r@.resources[b]->Some_0),
            cloned::<B>(self.key_hasher(), r.key_hasher()),
            self@.wf() ==> r@.wf(),
            self@.wf() ==> forall|h: u32|
                (#[trigger] r@.lookup(h) is Some <==> self@.lookup(h) is Some) && (r@.lookup(
                    h,
                ) is Some ==> cloned::<R>(self@.lookup(h)->Some_0, r@.lookup(h)->Some_0)),
    {
        let mut resources: Vec<Option<R>> = Vec::new();
        let n = self.resources.len();
        let mut b: usize = 0;
        while b < n
            invariant
                n == self.resources@.len(),
                b <= n,
                resources@.len() == b,
                forall|i: int|
                    0 <= i < b ==> (#[trigger] resources@[i] is Some <==> self.resources@[i] is Some),
                forall|i: int|
                    0 <= i < b && #[trigger] self.resources@[i] is Some ==> cloned::<R>(
                        self.resources@[i]->Some_0,
                        resources@[i]->Some_0,
                    ),
            decreases n - b,
        {
            let slot = match &self.resources[b] {
                Some(v) => Some(v.clone()),
                None => None,
            };
            resources.push(slot);
            b = b + 1;
        }
        let r = AnchorHash {
            anchor: self.anchor.clone(),
            hasher: self.hasher.clone(),
            resources,
            _key_type: PhantomData,
        };
        proof {
            if self@.wf() {
                lemma_same_shape_present(r@.resources, self@.resources);
                assert forall|e: int| 0 <= e < r@.anchor.capacity implies (
                #[trigger] r@.resources[e] is Some <==> r@.anchor.is_working(e)) by {
                    assert(self@.resources[e] is Some <==> self@.anchor.is_working(e));
                }
                assert forall|h: u32|
                    (#[trigger] r@.lookup(h) is Some <==> self@.lookup(h) is Some) && (r@.lookup(
                        h,
                    ) is Some ==> cloned::<R>(
                        self@.lookup(h)->Some_0,
                        r@.lookup(h)->Some_0,
                    )) by {
                    if self@.anchor.n > 0 {
                        self@.anchor.lemma_lookup_working(h);
                        let b = self@.anchor.lookup(h).0;
                        assert(self@.resources[b] is Some);
                    }
                }
            }
        }
        r
    }
}

/// Builds an [`AnchorHash`]: the hasher for keys, and resources to hold
/// from the start.
#[derive(Debug, Clone)]
pub struct Builder<R, B> where B: BuildHasher {
    resources: Option<Vec<R>>,
    hasher: B,
}

impl<R> Default for Builder<R, RandomState> {
    /// A builder with a randomly keyed hasher and no resource.
    fn default() -> (r: Self)
        ensures
            r.initial_resources() is None,
    {
        Builder { resources: None, hasher: new_random_state() }
    }
}

impl<R, B: BuildHasher> Builder<R, B> {
    /// The resources to hold from the start, if set.
    pub closed spec fn initial_resources(&self) -> Option<Seq<R>> {
        match self.resources {
            Some(v) => Some(v@),
            None => None,
        }
    }

    /// The hasher for keys.
    pub closed spec fn key_hasher(&self) -> B {
        self.hasher
    }

    /// An instance with room for `capacity` resources, holding the initial
    /// resources, added in order.
    pub fn build<K: Hash>(self, capacity: u16) -> (r: AnchorHash<K, R, B>)
        requires
            self.initial_resources() matches Some(rs) ==> rs.len() <= capacity,
        ensures
            r@.wf(),
            r.key_hasher() == self.key_hasher(),
            r@ == BindingState::<R>::built(
                capacity as nat,
                match self.initial_resources() {
                    Some(rs) => rs,
                    None => Seq::empty(),
                },
            ),
    {
        let ghost h0 = self.key_hasher();
        let Builder { resources, hasher } = self;
        let mut hash: AnchorHash<K, R, B> = AnchorHash::empty(capacity, hasher);
        match resources {
            None => {
                proof {
                    assert(BindingState::<R>::built(capacity as nat, Seq::empty())
                        == BindingState::<R>::empty(capacity as nat));
                }
            },
            Some(mut rs) => {
                let ghost all = rs@;
                // Reverse the list, so that popping yields the resources in order.
                let mut rev: Vec<R> = Vec::new();
                while rs.len() > 0
                    invariant
                        rs@.len() + rev@.len() == all.len(),
                        rs@ == all.take(rs@.len() as int),
                        forall|j: int|
                            0 <= j < rev@.len() ==> #[trigger] rev@[j] == all[all.len() - 1 - j],
                    decreases rs@.len(),
                {
                    let r = rs.pop().unwrap();
                    rev.push(r);
                    proof {
                        assert(rs@ =~= all.take(rs@.len() as int));
                    }
                }
                proof {
                    assert(all.take(0) =~= Seq::<R>::empty());
                    assert(BindingState::<R>::built(capacity as nat, all.take(0))
                        == BindingState::<R>::empty(capacity as nat));
                }
                while rev.len() > 0
                    invariant
                        rev@.len() <= all.len(),
                        all.len() <= capacity,
                        hash@.wf(),
                        hash.key_hasher() == h0,
                        hash@.anchor.capacity == capacity,
                        hash@.anchor.n == all.len() - rev@.len(),
                        hash@ == BindingState::<R>::built(
                            capacity as nat,
                            all.take(all.len() - rev@.len()),
                        ),
                        forall|j: int|
                            0 <= j < rev@.len() ==> #[trigger] rev@[j] == all[all.len() - 1 - j],
                    decreases rev@.len(),
                {
                    let ghost i = all.len() - rev@.len();
                    let r = rev.pop().unwrap();
                    proof {
                        assert(r == all[i]);
                        assert(all.take(i + 1).drop_last() =~= all.take(i));
                    }
                    let res = hash.add_resource(r);
                }
                proof {
                    assert(all.take(all.len() as int) =~= all);
                }
            },
        }
        hash
    }

    /// A builder that hashes keys with `builder` and holds no resource at
    /// first.
    pub fn with_hasher(builder: B) -> (r: Self)
        ensures
            r.key_hasher() == builder,
            r.initial_resources() is None,
    {
        Builder { resources: None, hasher: builder }
    }

    /// The same builder, holding `resources` from the start.
    pub fn with_resources(self, resources: Vec<R>) -> (r: Self)
        ensures
            r.key_hasher() == self.key_hasher(),
            r.initial_resources() == Some(resources@),
    {
        Builder { resources: Some(resources), hasher: self.hasher }
    }
}

/// Push onto `out` mutable references to the resources in `s`, in order;
/// whatever is written through them, each slot keeps holding a resource or
/// keeps holding none.
fn collect_mut<'a, R>(s: &'a mut [Option<R>], out: &mut Vec<&'a mut R>)
    ensures
        final(out)@.map_values(|v: &mut R| *v) == old(out)@.map_values(|v: &mut R| *v)
            + present(old(s)@),
        same_shape(final(s)@, old(s)@),
    decreases old(s)@.len(),
{
    if s.len() == 0 {
        proof {
            assert(old(out)@.map_values(|v: &mut R| *v) + present(old(s)@) =~= old(
                out,
            )@.map_values(|v: &mut R| *v));
        }
        return ;
    }
    let ghost whole = s@;
    let ghost before = out@.map_values(|v: &mut R| *v);
    let (head, tail) = s.split_at_mut(1);
    proof {
        lemma_present_concat(whole.take(1), whole.skip(1));
        assert(whole =~= whole.take(1) + whole.skip(1));
        assert(tail@ =~= whole.skip(1));
        assert(whole.take(1).drop_last() =~= Seq::<Option<R>>::empty());
        assert(present(Seq::<Option<R>>::empty()) =~= Seq::<R>::empty());
        assert(present(whole.take(1).drop_last()) =~= Seq::<R>::empty());
        assert(whole.take(1).last() == whole[0]);
        assert(head@[0] == whole[0]);
    }
    match head.first_mut() {
        Some(slot) => {
            match slot.as_mut() {
                Some(v) => {
                    let ghost cur = *v;
                    out.push(v);
                    proof {
                        assert(whole[0] == Some(cur));
                        assert(present(whole.take(1)) =~= seq![cur]);
                        assert(out@.map_values(|v: &mut R| *v) =~= before + present(
                            whole.take(1),
                        ));
                    }
                },
                None => {
                    proof {
                        assert(whole[0] is None);
                        assert(present(whole.take(1)) =~= Seq::<R>::empty());
                        assert(out@.map_values(|v: &mut R| *v) =~= before + present(
                            whole.take(1),
                        ));
                    }
                },
            }
        },
        None => {},
    }
    collect_mut(tail, out);
    proof {
        assert(before + present(whole.take(1)) + present(whole.skip(1)) =~= before + present(
            whole,
        ));
    }
}

/// The resources of two slot sequences put together are those of the first
/// followed by those of the second.
pub proof fn lemma_present_concat<R>(a: Seq<Option<R>>, b: Seq<Option<R>>)
    ensures
        present(a + b) == present(a) + present(b),
    decreases b.len(),
{
    if b.len() == 0 {
        assert(a + b =~= a);
        assert(present(a) + present(b) =~= present(a));
    } else {
        lemma_present_concat(a, b.drop_last());
        assert((a + b).drop_last() =~= a + b.drop_last());
        assert((a + b).last() == b.last());
        match b.last() {
            Some(v) => {
                assert(present(a) + present(b.drop_last()).push(v) =~= (present(a) + present(
                    b.drop_last(),
                )).push(v));
            },
            None => {},
        }
    }
}

/// Relies on std's RandomState::new: a key hasher builder with keys drawn
/// at random for each process; nothing is assumed of it.
#[verifier::external_body]
fn new_random_state() -> RandomState {
    RandomState::new()
}

/// Relies on BuildHasher::hash_one: the 64-bit digest of `key` under
/// `builder`; nothing is assumed of its value.
#[verifier::external_body]
fn hash_key<K: Hash, B: BuildHasher>(builder: &B, key: &K) -> u64 {
    builder.hash_one(key)
}

} // verus!
