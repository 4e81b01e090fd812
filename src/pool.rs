use vstd::prelude::*;
use std::collections::VecDeque;

verus! {

/// Identifier of one unit of capacity, in `1..=N` for a pool of size `N`.
pub type SlotId = u32;

/// The ids `1..=n`, in increasing order.
pub open spec fn ids_upto(n: nat) -> Seq<SlotId>
    decreases n,
{
    if n == 0 {
        Seq::empty()
    } else {
        ids_upto((n - 1) as nat).push(n as SlotId)
    }
}

pub proof fn lemma_ids_upto(n: nat)
    requires
        n <= u32::MAX,
    ensures
        ids_upto(n).len() == n,
        forall|i: int| 0 <= i < n ==> #[trigger] ids_upto(n)[i] == i + 1,
    decreases n,
{
    if n > 0 {
        lemma_ids_upto((n - 1) as nat);
    }
}

/// FIFO queue of the slot ids that are free to hand out.
pub struct FreePool {
    ids: VecDeque<SlotId>,
}

impl View for FreePool {
    type V = Seq<SlotId>;

    closed spec fn view(&self) -> Seq<SlotId> {
        self.ids@
    }
}

impl FreePool {
    /// A pool that holds every id of `1..=max_slots`, smallest first.
    pub fn new(max_slots: SlotId) -> (r: FreePool)
        ensures
            r@ == ids_upto(max_slots as nat),
    {
        let mut ids: VecDeque<SlotId> = VecDeque::new();
        let mut i: SlotId = 0;
        while i < max_slots
            invariant
                i <= max_slots,
                ids@ == ids_upto(i as nat),
            decreases max_slots - i,
        {
            i = i + 1;
            ids.push_back(i);
        }
        FreePool { ids }
    }

    pub fn len(&self) -> (r: usize)
        ensures
            r == self@.len(),
    {
        self.ids.len()
    }

    /// Takes the id at the front; `None` when the pool is drained.
    pub fn acquire(&mut self) -> (r: Option<SlotId>)
        ensures
            old(self)@.len() == 0 ==> r is None && final(self)@ == old(self)@,
            old(self)@.len() > 0 ==> r == Some(old(self)@[0]) && final(self)@
                == old(self)@.drop_first(),
    {
        self.ids.pop_front()
    }

    /// Puts `id` back at the tail.
    pub fn release(&mut self, id: SlotId)
        ensures
            final(self)@ == old(self)@.push(id),
    {
        self.ids.push_back(id);
    }
}

} // verus!
