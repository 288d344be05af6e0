use vstd::prelude::*;

verus! {

/// A pre-formatted event payload together with the arrival sequence number
/// assigned when the event entered the sampling step. Items are ordered by
/// `seq`; that order defines the arrival order used for emission.
pub struct Item {
    pub seq: u64,
    pub bytes: Vec<u8>,
}

impl Item {
    /// The empty placeholder value: `sample` hands it back when the offered
    /// item was retained without displacing an earlier one.
    pub open spec fn is_sentinel(self) -> bool {
        self.bytes@.len() == 0
    }

    /// Build the empty placeholder.
    pub fn empty() -> (r: Item)
        ensures
            r.is_sentinel(),
            r.seq == 0,
    {
        Item { seq: 0, bytes: Vec::new() }
    }

    /// Executable test for the placeholder, mirroring `is_sentinel`.
    pub fn is_empty(&self) -> (r: bool)
        ensures
            r == self.is_sentinel(),
    {
        self.bytes.len() == 0
    }
}

/// Relies on `fastrand::usize` with the range `0..n`: the result is drawn
/// from that range, so it is always below `n`; the call panics only when the
/// range is empty, which `n > 0` rules out.
#[verifier::external_body]
fn random_index(n: usize) -> (r: usize)
    requires
        n > 0,
    ensures
        r < n,
{
    fastrand::usize(0..n)
}

/// A fixed-capacity uniform sample of the items offered during the current
/// bucket (Algorithm R). `count` is the number of items offered this bucket
/// and may exceed the capacity; the first `min(count, capacity)` slots hold
/// the accepted items, the remaining slots hold the empty placeholder.
pub struct Reservoir {
    pub count: usize,
    pub slots: Vec<Item>,
}

impl Reservoir {
    pub open spec fn capacity(self) -> int {
        self.slots@.len() as int
    }

    /// Number of items offered since the last drain.
    pub open spec fn offered(self) -> int {
        self.count as int
    }

    /// Number of slots currently holding an accepted item.
    pub open spec fn occupied(self) -> int {
        if self.offered() < self.capacity() {
            self.offered()
        } else {
            self.capacity()
        }
    }

    /// The accepted items, in slot order.
    pub open spec fn stored(self) -> Seq<Item> {
        self.slots@.subrange(0, self.occupied())
    }

    pub open spec fn wf(self) -> bool {
        &&& forall|i: int|
            0 <= i < self.occupied() ==> !(#[trigger] self.slots@[i]).is_sentinel()
        &&& forall|i: int|
            self.occupied() <= i < self.slots@.len() ==> (
            #[trigger] self.slots@[i]).is_sentinel()
    }

    /// An empty reservoir of the given capacity.
    pub fn new(capacity: usize) -> (r: Reservoir)
        ensures
            r.wf(),
            r.capacity() == capacity,
            r.offered() == 0,
            r.stored() == Seq::<Item>::empty(),
    {
        let mut slots: Vec<Item> = Vec::new();
        while slots.len() < capacity
            invariant
                forall|i: int| 0 <= i < slots@.len() ==> (#[trigger] slots@[i]).is_sentinel(),
                slots@.len() <= capacity,
            decreases capacity - slots.len(),
        {
            slots.push(Item::empty());
        }
        let r = Reservoir { count: 0, slots };
        proof {
            assert(r.stored() =~= Seq::<Item>::empty());
        }
        r
    }

    /// Offer an item. When a slot is free the item is retained and the empty
    /// placeholder comes back; when the reservoir is full, a uniformly random
    /// choice either bounces the offered item back or swaps it with a stored
    /// one, whose previous occupant comes back.
    pub fn sample(&mut self, event: Item) -> (out: Item)
        requires
            old(self).wf(),
            !event.is_sentinel(),
            old(self).count < usize::MAX,
        ensures
            final(self).wf(),
            final(self).capacity() == old(self).capacity(),
            final(self).offered() == old(self).offered() + 1,
            old(self).occupied() < old(self).capacity() ==> {
                &&& out.is_sentinel()
                &&& final(self).stored() == old(self).stored().push(event)
            },
            old(self).occupied() == old(self).capacity() ==> {
                ||| (out == event && final(self).stored() == old(self).stored())
                ||| (exists|j: int|
                    0 <= j < old(self).capacity() && out == old(self).stored()[j]
                        && final(self).stored() == old(self).stored().update(j, event))
            },
    {
        self.count = self.count + 1;
        let idx = self.count - 1;
        if idx < self.slots.len() {
            let displaced = self.slots.remove(idx);
            self.slots.insert(idx, event);
            proof {
                assert(self.slots@ =~= old(self).slots@.update(idx as int, event));
                assert(self.stored() =~= old(self).stored().push(event));
            }
            displaced
        } else {
            let j = random_index(self.count);
            if j < self.slots.len() {
                let displaced = self.slots.remove(j);
                self.slots.insert(j, event);
                proof {
                    assert(self.slots@ =~= old(self).slots@.update(j as int, event));
                    assert(self.stored() =~= old(self).stored().update(j as int, event));
                    assert(old(self).stored()[j as int] == displaced);
                }
                displaced
            } else {
                event
            }
        }
    }

    /// Remove and return the accepted items, in slot order, and reset the
    /// offer count for the next bucket.
    pub fn drain(&mut self) -> (out: Vec<Item>)
        requires
            old(self).wf(),
        ensures
            final(self).wf(),
            final(self).capacity() == old(self).capacity(),
            final(self).offered() == 0,
            final(self).stored() == Seq::<Item>::empty(),
            out@ == old(self).stored(),
    {
        let cap = self.slots.len();
        let occ = if self.count < cap {
            self.count
        } else {
            cap
        };
        let mut out: Vec<Item> = Vec::new();
        let mut i: usize = 0;
        while i < occ
            invariant
                occ == old(self).occupied(),
                occ <= cap == old(self).capacity(),
                i <= occ,
                self.count == old(self).count,
                self.slots@ =~= old(self).slots@.subrange(i as int, cap as int),
                out@ =~= old(self).slots@.subrange(0, i as int),
            decreases occ - i,
        {
            let it = self.slots.remove(0);
            out.push(it);
            i = i + 1;
        }
        while self.slots.len() < cap
            invariant
                old(self).wf(),
                occ == old(self).occupied(),
                occ <= cap == old(self).capacity(),
                cap - occ <= self.slots@.len() <= cap,
                forall|k: int| 0 <= k < self.slots@.len() ==> (
                #[trigger] self.slots@[k]).is_sentinel(),
            decreases cap - self.slots.len(),
        {
            self.slots.push(Item::empty());
        }
        self.count = 0;
        proof {
            assert(out@ =~= old(self).stored());
            assert(self.stored() =~= Seq::<Item>::empty());
        }
        out
    }
}

} // verus!
