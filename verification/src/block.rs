//! A block of 128 slots with the three masks that summarise them.
use vstd::prelude::*;
use crate::mask::{covers, has_bit, lemma_bit_zero, lemma_covers_push, runs, runs_within};

verus! {

/// 128 slots and their masks. In a leaf block the slots hold components; in
/// an upper block they hold the blocks of the level below.
///
/// - `presence_mask`: bit `i` is set when slot `i` is occupied.
/// - `absence_mask`: bit `i` is set when slot `i` is completely filled (for a
///   leaf: occupied; above: the block below holds every slot it addresses),
///   so that a query that excludes this component can skip it.
/// - `change_mask`: bit `i` is set when something at slot `i` was written
///   since the last clean-up.
pub struct Block<T> {
    pub presence_mask: u128,
    pub absence_mask: u128,
    pub change_mask: u128,
    pub data: Vec<Option<T>>,
}

impl<T> Block<T> {
    /// The slots exist and the presence mask tells exactly which are occupied.
    pub open spec fn slots_wf(&self) -> bool {
        &&& self.data@.len() == 128
        &&& forall|i: int| 0 <= i < 128 ==> (#[trigger] has_bit(self.presence_mask, i) <==> self.data@[i] is Some)
    }

    /// An empty block: no slot occupied, all masks clear.
    pub fn new() -> (r: Block<T>)
        ensures
            r.slots_wf(),
            r.presence_mask == 0,
            r.absence_mask == 0,
            r.change_mask == 0,
            forall|i: int| 0 <= i < 128 ==> r.data@[i] is None,
    {
        let mut data: Vec<Option<T>> = Vec::new();
        let mut k: u32 = 0;
        while k < 128
            invariant
                k <= 128,
                data@.len() == k,
                forall|i: int| 0 <= i < k ==> data@[i] is None,
            decreases 128 - k,
        {
            data.push(None);
            k = k + 1;
        }
        proof {
            broadcast use lemma_bit_zero;
        }
        Block { presence_mask: 0, absence_mask: 0, change_mask: 0, data }
    }

    /// The content of slot `i`.
    pub fn get(&self, i: u32) -> (r: Option<&T>)
        requires
            self.slots_wf(),
            i < 128,
        ensures
            r == match self.data@[i as int] {
                Some(v) => Some(&v),
                None => None::<&T>,
            },
    {
        match &self.data[i as usize] {
            Some(v) => Some(v),
            None => None,
        }
    }

    /// Takes slot `i` out, leaving it empty; the masks are left as they are.
    pub fn take(&mut self, i: u32) -> (r: Option<T>)
        requires
            i < 128,
            old(self).data@.len() == 128,
        ensures
            r == old(self).data@[i as int],
            final(self).data@ == old(self).data@.update(i as int, None),
            final(self).presence_mask == old(self).presence_mask,
            final(self).absence_mask == old(self).absence_mask,
            final(self).change_mask == old(self).change_mask,
    {
        let mut out: Option<T> = None;
        std::mem::swap(&mut out, &mut self.data[i as usize]);
        out
    }

    /// Empties every occupied slot, walking the runs of the presence mask,
    /// and clears the masks.
    pub fn clear(&mut self)
        requires
            old(self).slots_wf(),
        ensures
            final(self).slots_wf(),
            final(self).presence_mask == 0,
            final(self).absence_mask == 0,
            final(self).change_mask == 0,
            forall|i: int| 0 <= i < 128 ==> final(self).data@[i] is None,
    {
        let spans = runs(self.presence_mask);
        let ghost pm = self.presence_mask;
        let mut k: usize = 0;
        while k < spans.len()
            invariant
                self.data@.len() == 128,
                self.presence_mask == pm,
                runs_within(spans@, 0, 128),
                forall|idx: int| #[trigger] covers(spans@, idx) == has_bit(self.presence_mask, idx),
                forall|i: int| 0 <= i < 128 ==> (self.data@[i] is Some ==> has_bit(self.presence_mask, i)),
                forall|i: int| 0 <= i < 128 && #[trigger] self.data@[i] is Some ==> !covers(spans@.subrange(0, k as int), i),
                0 <= k <= spans.len(),
            decreases spans.len() - k,
        {
            let (start, len) = spans[k];
            assert(spans@[k as int].1 > 0);
            let mut j: u32 = start;
            while j < start + len
                invariant
                    start <= j <= start + len <= 128,
                    0 <= k < spans.len(),
                    self.data@.len() == 128,
                    self.presence_mask == pm,
                    forall|i: int| 0 <= i < 128 ==> (self.data@[i] is Some ==> has_bit(self.presence_mask, i)),
                    forall|i: int| 0 <= i < 128 && #[trigger] self.data@[i] is Some ==> !covers(spans@.subrange(0, k as int), i) && !(start <= i < j),
                decreases start + len - j,
            {
                self.data[j as usize] = None;
                j = j + 1;
            }
            proof {
                assert forall|i: int| 0 <= i < 128 && #[trigger] self.data@[i] is Some implies !covers(spans@.subrange(0, k + 1), i) by {
                    assert(spans@.subrange(0, k + 1) =~= spans@.subrange(0, k as int).push(spans@[k as int]));
                    lemma_covers_push(spans@.subrange(0, k as int), spans@[k as int], i);
                }
            }
            k = k + 1;
        }
        proof {
            assert(spans@.subrange(0, k as int) =~= spans@);
            assert forall|i: int| 0 <= i < 128 implies self.data@[i] is None by {
                if self.data@[i] is Some {
                    assert(has_bit(self.presence_mask, i));
                    assert(covers(spans@, i));
                }
            }
            broadcast use lemma_bit_zero;
        }
        self.presence_mask = 0;
        self.absence_mask = 0;
        self.change_mask = 0;
    }
}

} // verus!
