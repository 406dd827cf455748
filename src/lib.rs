//! A fixed-capacity slot allocator.
//!
//! A [`Slab`] reserves room for up to [`SLAB_SIZE`] values of one type. Values
//! are moved in with `allocate`, which takes the lowest free slot and hands
//! back its index as a handle, and released with `deallocate`, which ignores
//! handles that name no live value.
use vstd::prelude::*;

verus! {

/// Number of slots in every slab.
pub const SLAB_SIZE: usize = 32;

/// The lowest index at or after `k` whose slot is free, or `s.len()` if none is.
pub open spec fn first_free_from<T>(s: Seq<Option<T>>, k: int) -> int
    decreases s.len() - k,
{
    if k < 0 || k >= s.len() {
        s.len() as int
    } else if s[k] is None {
        k
    } else {
        first_free_from(s, k + 1)
    }
}

/// The lowest free slot of `s`, or `s.len()` when every slot is live.
pub open spec fn first_free<T>(s: Seq<Option<T>>) -> int {
    first_free_from(s, 0)
}

/// The slots after `v` is allocated: it goes into the lowest free slot, and
/// nothing changes when there is none.
pub open spec fn after_allocate<T>(s: Seq<Option<T>>, v: T) -> Seq<Option<T>> {
    if first_free(s) < s.len() {
        s.update(first_free(s), Some(v))
    } else {
        s
    }
}

/// The slots after handle `p` is released: a live slot `p` becomes free, and
/// any other handle changes nothing.
pub open spec fn after_deallocate<T>(s: Seq<Option<T>>, p: int) -> Seq<Option<T>> {
    if 0 <= p < s.len() && s[p] is Some {
        s.update(p, None)
    } else {
        s
    }
}

/// `first_free` is the lowest free index: every slot below it is live, and
/// it is free itself unless it is `s.len()`.
pub proof fn lemma_first_free<T>(s: Seq<Option<T>>)
    ensures
        0 <= first_free(s) <= s.len(),
        forall|j: int| 0 <= j < first_free(s) ==> #[trigger] s[j] is Some,
        first_free(s) < s.len() ==> s[first_free(s)] is None,
{
    lemma_first_free_from(s, 0);
}

proof fn lemma_first_free_from<T>(s: Seq<Option<T>>, k: int)
    requires
        0 <= k <= s.len(),
    ensures
        k <= first_free_from(s, k) <= s.len(),
        forall|j: int| k <= j < first_free_from(s, k) ==> #[trigger] s[j] is Some,
        first_free_from(s, k) < s.len() ==> s[first_free_from(s, k)] is None,
    decreases s.len() - k,
{
    if k < s.len() && s[k] is Some {
        lemma_first_free_from(s, k + 1);
    }
}

/// Any index whose predecessors are all live and which is itself free (or is
/// the length) is `first_free`.
proof fn lemma_first_free_unique<T>(s: Seq<Option<T>>, i: int)
    requires
        0 <= i <= s.len(),
        forall|j: int| 0 <= j < i ==> #[trigger] s[j] is Some,
        i < s.len() ==> s[i] is None,
    ensures
        first_free(s) == i,
{
    lemma_first_free(s);
    if first_free(s) < i {
        assert(s[first_free(s)] is Some);
    } else if first_free(s) > i {
        assert(s[i] is Some);
    }
}

/// Number of live slots in `s`.
pub open spec fn live_count<T>(s: Seq<Option<T>>) -> nat
    decreases s.len(),
{
    if s.len() == 0 {
        0
    } else {
        live_count(s.drop_last()) + if s.last() is Some { 1nat } else { 0nat }
    }
}

/// The slots after allocating each of `vals` in turn, starting from `s`.
pub open spec fn allocate_all<T>(s: Seq<Option<T>>, vals: Seq<T>) -> Seq<Option<T>>
    decreases vals.len(),
{
    if vals.len() == 0 {
        s
    } else {
        after_allocate(allocate_all(s, vals.drop_last()), vals.last())
    }
}

proof fn lemma_live_count_bound<T>(s: Seq<Option<T>>)
    ensures
        live_count(s) <= s.len(),
        live_count(s) == s.len() ==> forall|i: int| 0 <= i < s.len() ==> #[trigger] s[i] is Some,
    decreases s.len(),
{
    if s.len() > 0 {
        lemma_live_count_bound(s.drop_last());
        if live_count(s) == s.len() {
            assert forall|i: int| 0 <= i < s.len() implies #[trigger] s[i] is Some by {
                if i < s.len() - 1 {
                    assert(s.drop_last()[i] == s[i]);
                }
            }
        }
    }
}

proof fn lemma_live_count_fill<T>(s: Seq<Option<T>>, i: int, v: T)
    requires
        0 <= i < s.len(),
        s[i] is None,
    ensures
        live_count(s.update(i, Some(v))) == live_count(s) + 1,
    decreases s.len(),
{
    let t = s.update(i, Some(v));
    if i < s.len() - 1 {
        assert(t.drop_last() =~= s.drop_last().update(i, Some(v)));
        lemma_live_count_fill(s.drop_last(), i, v);
    } else {
        assert(t.drop_last() =~= s.drop_last());
    }
}

/// Each successful allocation adds one live slot: after the first `k` values
/// of `vals` were all placed, `k` more slots are live than in `s`.
proof fn lemma_allocate_all_count<T>(s: Seq<Option<T>>, vals: Seq<T>, k: int)
    requires
        0 <= k <= vals.len(),
        forall|j: int| 0 <= j < vals.len() ==> #[trigger] first_free(allocate_all(s, vals.take(j))) < s.len(),
    ensures
        live_count(allocate_all(s, vals.take(k))) == live_count(s) + k,
        allocate_all(s, vals.take(k)).len() == s.len(),
    decreases k,
{
    if k == 0 {
        assert(vals.take(0).len() == 0);
    } else {
        lemma_allocate_all_count(s, vals, k - 1);
        let prev = allocate_all(s, vals.take(k - 1));
        assert(vals.take(k).drop_last() =~= vals.take(k - 1));
        assert(first_free(allocate_all(s, vals.take(k - 1))) < s.len());
        lemma_first_free(prev);
        lemma_live_count_fill(prev, first_free(prev), vals[k - 1]);
    }
}

/// Capacity bound: when `SLAB_SIZE` allocations in a row all succeed, with no
/// release in between, the slab is full and the next allocation fails.
pub proof fn lemma_capacity_bound<T>(s: Seq<Option<T>>, vals: Seq<T>)
    requires
        s.len() == SLAB_SIZE,
        vals.len() == SLAB_SIZE,
        forall|j: int| 0 <= j < vals.len() ==> #[trigger] first_free(allocate_all(s, vals.take(j))) < SLAB_SIZE,
    ensures
        first_free(allocate_all(s, vals)) == SLAB_SIZE,
{
    lemma_allocate_all_count(s, vals, SLAB_SIZE as int);
    assert(vals.take(SLAB_SIZE as int) =~= vals);
    let t = allocate_all(s, vals);
    lemma_live_count_bound(s);
    lemma_live_count_bound(t);
    lemma_first_free(t);
    if first_free(t) < SLAB_SIZE {
        assert(t[first_free(t)] is Some);
    }
}

/// Round trip: a successful allocation of `v` leaves `v` in the slot whose
/// index it returns.
pub proof fn lemma_allocate_then_read<T>(s: Seq<Option<T>>, v: T)
    requires
        first_free(s) < s.len(),
    ensures
        after_allocate(s, v)[first_free(s)] == Some(v),
{
    lemma_first_free(s);
}

/// Slot reuse: releasing the slot that an allocation just took restores the
/// slab as it was, so the next allocation succeeds and takes that same slot.
pub proof fn lemma_slot_reuse<T>(s: Seq<Option<T>>, v: T, w: T)
    requires
        first_free(s) < s.len(),
    ensures
        after_deallocate(after_allocate(s, v), first_free(s)) == s,
        first_free(after_deallocate(after_allocate(s, v), first_free(s))) == first_free(s),
        after_allocate(after_deallocate(after_allocate(s, v), first_free(s)), w)[first_free(s)] == Some(w),
{
    lemma_first_free(s);
    assert(after_deallocate(after_allocate(s, v), first_free(s)) =~= s);
}

/// First fit: once a live slot `i` is released, the next allocation takes
/// whichever is lower of `i` and the lowest slot that was free before.
pub proof fn lemma_first_fit_after_release<T>(s: Seq<Option<T>>, i: int)
    requires
        0 <= i < s.len(),
        s[i] is Some,
    ensures
        first_free(after_deallocate(s, i)) == if i < first_free(s) { i } else { first_free(s) },
{
    lemma_first_free(s);
    let t = after_deallocate(s, i);
    let m = if i < first_free(s) { i } else { first_free(s) };
    assert forall|j: int| 0 <= j < m implies #[trigger] t[j] is Some by {
        assert(s[j] is Some);
    }
    lemma_first_free_unique(t, m);
}

/// A handle that names no live slot (out of range, never handed out, or
/// already released) leaves every slot as it was; releasing a handle twice
/// is the same as releasing it once; and a release touches no other slot.
pub proof fn lemma_stale_deallocate<T>(s: Seq<Option<T>>, p: int)
    ensures
        !(0 <= p < s.len() && s[p] is Some) ==> after_deallocate(s, p) == s,
        after_deallocate(after_deallocate(s, p), p) == after_deallocate(s, p),
        after_deallocate(s, p).len() == s.len(),
        forall|j: int| 0 <= j < s.len() && j != p ==> #[trigger] after_deallocate(s, p)[j] == s[j],
{
}

/// Storage for up to `SLAB_SIZE` values of type `T`, with an occupancy table.
pub struct Slab<T> {
    /// `slots[i]` holds the value living in slot `i`, if any.
    slots: Vec<Option<T>>,
    /// `used[i]` is true exactly when slot `i` holds a live value.
    used: Vec<bool>,
}

impl<T> View for Slab<T> {
    type V = Seq<Option<T>>;

    /// The contents of the slots, in index order.
    closed spec fn view(&self) -> Seq<Option<T>> {
        self.slots@
    }
}

impl<T> Slab<T> {
    /// Both tables have one entry per slot and agree on which slots are live.
    pub closed spec fn wf(&self) -> bool {
        &&& self.slots@.len() == SLAB_SIZE
        &&& self.used@.len() == SLAB_SIZE
        &&& forall|i: int| 0 <= i < SLAB_SIZE ==> #[trigger] self.used@[i] == (self.slots@[i] is Some)
    }

    /// Creates a slab with every slot free.
    pub fn new() -> (r: Self)
        ensures
            r.wf(),
            r@.len() == SLAB_SIZE,
            forall|i: int| 0 <= i < SLAB_SIZE ==> #[trigger] r@[i] is None,
    {
        let mut slots: Vec<Option<T>> = Vec::new();
        let mut used: Vec<bool> = Vec::new();
        let mut k: usize = 0;
        while k < SLAB_SIZE
            invariant
                k <= SLAB_SIZE,
                slots@.len() == k,
                used@.len() == k,
                forall|i: int| 0 <= i < k ==> #[trigger] slots@[i] is None && !used@[i],
            decreases SLAB_SIZE - k,
        {
            slots.push(None);
            used.push(false);
            k = k + 1;
        }
        Slab { slots, used }
    }

    /// Moves `value` into the lowest free slot and returns that slot's index.
    /// When every slot is live, nothing is stored and `value` comes back as
    /// the error.
    pub fn allocate(&mut self, value: T) -> (r: Result<usize, T>)
        requires
            old(self).wf(),
        ensures
            final(self).wf(),
            final(self)@ == after_allocate(old(self)@, value),
            first_free(old(self)@) < SLAB_SIZE ==> r == Ok::<usize, T>(first_free(old(self)@) as usize),
            first_free(old(self)@) == SLAB_SIZE ==> r == Err::<usize, T>(value),
            match r {
                Ok(i) => {
                    &&& i < SLAB_SIZE
                    &&& old(self)@[i as int] is None
                    &&& final(self)@[i as int] == Some(value)
                    &&& forall|j: int| 0 <= j < i ==> #[trigger] old(self)@[j] is Some
                },
                Err(_) => forall|j: int| 0 <= j < SLAB_SIZE ==> #[trigger] old(self)@[j] is Some,
            },
    {
        proof {
            lemma_first_free(self@);
        }
        let mut i: usize = 0;
        while i < SLAB_SIZE
            invariant
                self.wf(),
                self@ == old(self)@,
                i <= SLAB_SIZE,
                forall|j: int| 0 <= j < i ==> #[trigger] self@[j] is Some,
            decreases SLAB_SIZE - i,
        {
            if !self.used[i] {
                proof {
                    lemma_first_free_unique(self@, i as int);
                }
                self.used.set(i, true);
                self.slots.set(i, Some(value));
                return Ok(i);
            }
            i = i + 1;
        }
        proof {
            lemma_first_free_unique(self@, SLAB_SIZE as int);
        }
        Err(value)
    }

    /// Releases the value in slot `ptr`, if that slot is live. A handle that
    /// names no live slot (out of range, or already released) changes nothing.
    pub fn deallocate(&mut self, ptr: usize)
        requires
            old(self).wf(),
        ensures
            final(self).wf(),
            final(self)@ == after_deallocate(old(self)@, ptr as int),
    {
        if ptr < SLAB_SIZE && self.used[ptr] {
            self.used.set(ptr, false);
            self.slots.set(ptr, None);
        }
    }

    /// The value in slot `ptr`, or `None` when that slot is free or out of range.
    pub fn get(&self, ptr: usize) -> (r: Option<&T>)
        requires
            self.wf(),
        ensures
            ptr < SLAB_SIZE && self@[ptr as int] is Some ==> r == Some(&self@[ptr as int]->0),
            !(ptr < SLAB_SIZE && self@[ptr as int] is Some) ==> r is None,
    {
        if ptr < SLAB_SIZE {
            self.slots[ptr].as_ref()
        } else {
            None
        }
    }

    /// Mutable access to the value in slot `ptr`, or `None` when that slot is
    /// free or out of range. Writing through the result changes that slot only.
    pub fn get_mut(&mut self, ptr: usize) -> (r: Option<&mut T>)
        requires
            old(self).wf(),
        ensures
            final(self).wf(),
            match r {
                Some(x) => {
                    &&& ptr < SLAB_SIZE
                    &&& old(self)@[ptr as int] == Some(*x)
                    &&& final(self)@ == old(self)@.update(ptr as int, Some(*final(x)))
                },
                None => {
                    &&& !(ptr < SLAB_SIZE && old(self)@[ptr as int] is Some)
                    &&& final(self)@ == old(self)@
                },
            },
    {
        if ptr < SLAB_SIZE {
            self.slots[ptr].as_mut()
        } else {
            None
        }
    }
}

} // verus!
