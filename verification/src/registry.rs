//! The storages of the components a user adds to a world: a registry, kept
//! by the user, that holds one storage per slot and reads out their masks
//! slot by slot.
use vstd::prelude::*;
use crate::dsl::{Tok, Token, toks};
use crate::index::{CAPACITY, in_range, ix};
use crate::mask::{has_bit, runs_within};
use crate::system::covered;

verus! {

/// The integers of the specifications: slots, entity indices and block
/// addresses. Named so that a registry or component written outside Verus
/// can declare the specification items of its trait.
pub type SpecInt = int;

/// A set of entity indices, as the specifications speak of them.
pub type IndexSet = Set<int>;

/// A sequence of token values, as the specifications speak of them.
pub type TokenSeq = Seq<Tok>;

/// Slot `k` of `r` holds a component at address `o`, `m`, `i`.
pub open spec fn slot_holds<R: Registry>(r: R, k: int, o: int, m: int, i: int) -> bool {
    r.holds(k, o, m, i)
}

/// The component at address `o`, `m`, `i` of slot `k` of `r` is marked changed.
pub open spec fn slot_marked<R: Registry>(r: R, k: int, o: int, m: int, i: int) -> bool {
    r.marked(k, o, m, i)
}

/// The storages of the components a user adds to a world, in slots 2 to
/// 127 (slots 0 and 1 are the world's own `Entity` and `Destroyed`).
pub trait Registry: Sized {
    /// Every storage is well-formed.
    spec fn valid(&self) -> bool;

    /// Slot `k` has a storage.
    spec fn present(&self, k: int) -> bool;

    /// The entity indices that slot `k` holds a component for.
    spec fn stored_at(&self, k: int) -> Set<int>;

    /// The entity indices whose component in slot `k` is marked changed.
    spec fn changed_at(&self, k: int) -> Set<int>;

    /// Slot `k` holds a component at address `o`, `m`, `i`.
    spec fn holds(&self, k: int, o: int, m: int, i: int) -> bool;

    /// The component at address `o`, `m`, `i` of slot `k` is marked changed.
    spec fn marked(&self, k: int, o: int, m: int, i: int) -> bool;

    /// The slots the registry can hold a storage in.
    spec fn known(k: int) -> bool;

    /// The slot of the component whose type the tokens name, if the registry
    /// knows one.
    spec fn named(name: Seq<Tok>) -> Option<u32>;

    /// What every registry keeps: its slots lie in 2..128, an empty slot holds
    /// nothing, and only stored components are marked changed.
    proof fn lemma_valid(&self)
        requires
            self.valid(),
        ensures
            forall|k: int| #[trigger] self.present(k) ==> Self::known(k),
            forall|k: int| !#[trigger] self.present(k) ==> self.stored_at(k) == Set::<int>::empty() && self.changed_at(k) == Set::<int>::empty(),
            forall|k: int| #[trigger] self.changed_at(k).subset_of(self.stored_at(k)),
            forall|k: int, idx: int| #[trigger] self.stored_at(k).contains(idx) ==> 0 <= idx < CAPACITY,
            forall|k: int, o: int, m: int, i: int| #[trigger] self.holds(k, o, m, i) == (in_range(o, m, i) && self.stored_at(k).contains(ix(o, m, i))),
            forall|k: int, o: int, m: int, i: int| #[trigger] self.marked(k, o, m, i) == (in_range(o, m, i) && self.changed_at(k).contains(ix(o, m, i))),
    ;

    /// Every slot the registry knows lies in 2..128, and every name it
    /// resolves names a slot it knows.
    proof fn lemma_known()
        ensures
            forall|k: int| #[trigger] Self::known(k) ==> 2 <= k < 128,
            forall|name: Seq<Tok>| #[trigger] Self::named(name) matches Some(k) ==> Self::known(k as int),
    ;

    /// A registry without storages.
    fn empty() -> (r: Self)
        ensures
            r.valid(),
            forall|k: int| !#[trigger] r.present(k),
    ;

    /// The slot of the component whose type the tokens name.
    fn name_slot(name: &Vec<Token>) -> (r: Option<u32>)
        ensures
            r == Self::named(toks(name@)),
    ;

    /// Gives slot `k` a storage, empty when it had none.
    fn create(&mut self, k: u32)
        requires
            old(self).valid(),
            Self::known(k as int),
        ensures
            final(self).valid(),
            final(self).present(k as int),
            forall|j: int| j != k ==> #[trigger] final(self).present(j) == old(self).present(j),
            forall|j: int| #[trigger] final(self).stored_at(j) == old(self).stored_at(j),
            forall|j: int| #[trigger] final(self).changed_at(j) == old(self).changed_at(j),
    ;

    /// Removes from slot `k` the components of every index the runs cover.
    fn remove_runs(&mut self, k: u32, spans: &Vec<(u32, u32)>)
        requires
            old(self).valid(),
            old(self).present(k as int),
            runs_within(spans@, 0, CAPACITY as int),
        ensures
            final(self).valid(),
            forall|j: int| #[trigger] final(self).present(j) == old(self).present(j),
            final(self).stored_at(k as int) == old(self).stored_at(k as int).difference(covered(spans@)),
            final(self).changed_at(k as int) == old(self).changed_at(k as int).difference(covered(spans@)),
            forall|j: int| j != k ==> #[trigger] final(self).stored_at(j) == old(self).stored_at(j),
            forall|j: int| j != k ==> #[trigger] final(self).changed_at(j) == old(self).changed_at(j),
    ;

    /// Middle blocks of slot `k` that hold something.
    fn outer_presence(&self, k: u32) -> (r: u128)
        requires
            self.valid(),
            self.present(k as int),
        ensures
            forall|o: int| 0 <= o < 128 ==> (#[trigger] has_bit(r, o) <==> exists|m: int, i: int| in_range(o, m, i) && #[trigger] self.holds(k as int, o, m, i)),
    ;

    /// Leaves of middle block `o` of slot `k` that hold something.
    fn middle_presence(&self, k: u32, o: u32) -> (r: u128)
        requires
            self.valid(),
            self.present(k as int),
            o < 128,
        ensures
            forall|m: int| 0 <= m < 128 ==> (#[trigger] has_bit(r, m) <==> exists|i: int| 0 <= i < 128 && #[trigger] self.holds(k as int, o as int, m, i)),
    ;

    /// Leaves of middle block `o` of slot `k` that hold every slot.
    fn middle_full(&self, k: u32, o: u32) -> (r: u128)
        requires
            self.valid(),
            self.present(k as int),
            o < 128,
        ensures
            forall|m: int| 0 <= m < 128 ==> (#[trigger] has_bit(r, m) <==> forall|i: int| 0 <= i < 128 ==> #[trigger] self.holds(k as int, o as int, m, i)),
    ;

    /// Occupied slots of leaf `m` of middle block `o` of slot `k`.
    fn inner_presence(&self, k: u32, o: u32, m: u32) -> (r: u128)
        requires
            self.valid(),
            self.present(k as int),
            o < 128,
            m < 128,
        ensures
            forall|i: int| 0 <= i < 128 ==> (#[trigger] has_bit(r, i) <==> self.holds(k as int, o as int, m as int, i)),
    ;

    /// Middle blocks of slot `k` with a change.
    fn outer_change(&self, k: u32) -> (r: u128)
        requires
            self.valid(),
            self.present(k as int),
        ensures
            forall|o: int| 0 <= o < 128 ==> (#[trigger] has_bit(r, o) <==> exists|m: int, i: int| in_range(o, m, i) && #[trigger] self.marked(k as int, o, m, i)),
    ;

    /// Leaves of middle block `o` of slot `k` with a change.
    fn middle_change(&self, k: u32, o: u32) -> (r: u128)
        requires
            self.valid(),
            self.present(k as int),
            o < 128,
        ensures
            forall|m: int| 0 <= m < 128 ==> (#[trigger] has_bit(r, m) <==> exists|i: int| 0 <= i < 128 && #[trigger] self.marked(k as int, o as int, m, i)),
    ;

    /// Changed slots of leaf `m` of middle block `o` of slot `k`.
    fn inner_change(&self, k: u32, o: u32, m: u32) -> (r: u128)
        requires
            self.valid(),
            self.present(k as int),
            o < 128,
            m < 128,
        ensures
            forall|i: int| 0 <= i < 128 ==> (#[trigger] has_bit(r, i) <==> self.marked(k as int, o as int, m as int, i)),
    ;
}

/// The registry of a world that holds only its own components: no slot.
pub struct Builtins {}

impl Registry for Builtins {
    open spec fn valid(&self) -> bool {
        true
    }

    open spec fn present(&self, k: int) -> bool {
        false
    }

    open spec fn stored_at(&self, k: int) -> Set<int> {
        Set::empty()
    }

    open spec fn changed_at(&self, k: int) -> Set<int> {
        Set::empty()
    }

    open spec fn holds(&self, k: int, o: int, m: int, i: int) -> bool {
        false
    }

    open spec fn marked(&self, k: int, o: int, m: int, i: int) -> bool {
        false
    }

    open spec fn known(k: int) -> bool {
        false
    }

    open spec fn named(name: Seq<Tok>) -> Option<u32> {
        None
    }

    proof fn lemma_valid(&self) {
    }

    proof fn lemma_known() {
    }

    fn empty() -> (r: Self) {
        Builtins {}
    }

    fn name_slot(name: &Vec<Token>) -> (r: Option<u32>) {
        None
    }

    fn create(&mut self, k: u32) {
    }

    fn remove_runs(&mut self, k: u32, spans: &Vec<(u32, u32)>) {
    }

    fn outer_presence(&self, k: u32) -> (r: u128) {
        0
    }

    fn middle_presence(&self, k: u32, o: u32) -> (r: u128) {
        0
    }

    fn middle_full(&self, k: u32, o: u32) -> (r: u128) {
        0
    }

    fn inner_presence(&self, k: u32, o: u32, m: u32) -> (r: u128) {
        0
    }

    fn outer_change(&self, k: u32) -> (r: u128) {
        0
    }

    fn middle_change(&self, k: u32, o: u32) -> (r: u128) {
        0
    }

    fn inner_change(&self, k: u32, o: u32, m: u32) -> (r: u128) {
        0
    }
}

} // verus!
