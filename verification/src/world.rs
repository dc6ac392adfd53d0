//! The world: the storages of the components and the stages run over them.
use vstd::prelude::*;
use crate::component::{Component, Destroyed, Entity};
use crate::index::in_range;
use crate::mask::{has_bit, lemma_bit_zero};
use crate::query::Presence;
use crate::registry::{Builtins, Registry};
use crate::component::lemma_register;
use crate::storage::Storage;
use crate::system::{PipelineStage, stage_step};

verus! {

/// The storages of a world, created when first asked for. Slot 0 holds the
/// entities, slot 1 the `Destroyed` tags, and the registry `extra` the
/// components a user adds, in slots 2 to 127. Bit `k` of `mask` is set when
/// the storage of slot `k` exists.
pub struct World<R> {
    pub mask: u128,
    pub entities: Option<Storage<Entity>>,
    pub destroyed: Option<Storage<Destroyed>>,
    pub extra: R,
}

/// The components stored in `s`, or none when it was not created.
pub open spec fn contents<T>(s: Option<Storage<T>>) -> Map<int, T> {
    match s {
        Some(s) => s@,
        None => Map::empty(),
    }
}

/// The indices marked changed in `s`, or none when it was not created.
pub open spec fn changes<T>(s: Option<Storage<T>>) -> Set<int> {
    match s {
        Some(s) => s.changed(),
        None => Set::empty(),
    }
}

/// Slot `k` of the world has a storage.
pub open spec fn slot_present<R: Registry>(w: World<R>, k: int) -> bool {
    if k == 0 {
        w.entities is Some
    } else if k == 1 {
        w.destroyed is Some
    } else {
        2 <= k < 128 && w.extra.present(k)
    }
}

/// The entity indices slot `k` of the world holds a component for.
pub open spec fn slot_stored<R: Registry>(w: World<R>, k: int) -> Set<int> {
    if k == 0 {
        contents(w.entities).dom()
    } else if k == 1 {
        contents(w.destroyed).dom()
    } else {
        w.extra.stored_at(k)
    }
}

/// The entity indices whose component in slot `k` is marked changed.
pub open spec fn slot_changed<R: Registry>(w: World<R>, k: int) -> Set<int> {
    if k == 0 {
        changes(w.entities)
    } else if k == 1 {
        changes(w.destroyed)
    } else {
        w.extra.changed_at(k)
    }
}

/// Slot `k` is one a world with registry `R` can hold.
pub open spec fn slot_known<R: Registry>(k: int) -> bool {
    k == 0 || k == 1 || R::known(k)
}

impl<R: Registry> World<R> {
    /// The mask tells which storages exist, and those are well-formed.
    pub open spec fn wf(&self) -> bool {
        &&& forall|k: int| #[trigger] has_bit(self.mask, k) <==> slot_present(*self, k)
        &&& self.entities is Some ==> self.entities.unwrap().wf()
        &&& self.destroyed is Some ==> self.destroyed.unwrap().wf()
        &&& self.extra.valid()
    }

    /// A world without storages, with an empty registry.
    pub fn empty() -> (r: World<R>)
        ensures
            r.wf(),
            r.mask == 0,
            r.entities is None,
            r.destroyed is None,
            forall|k: int| !#[trigger] slot_present(r, k),
    {
        proof {
            broadcast use lemma_bit_zero;
        }
        World { mask: 0, entities: None, destroyed: None, extra: R::empty() }
    }

    /// The storage of component `T`, created empty on first use. Every other
    /// slot keeps its storage.
    pub fn get<T: Component<R>>(&mut self) -> (r: &mut Storage<T>)
        requires
            old(self).wf(),
        ensures
            r.wf(),
            T::stored(*old(self)) is Some ==> *r == T::stored(*old(self)).unwrap(),
            T::stored(*old(self)) is None ==> r@ == Map::<int, T>::empty() && r.changed() == Set::<int>::empty(),
            *final(self) == T::replaced(
                World { mask: old(self).mask | (1u128 << T::type_slot()), ..*old(self) },
                Some(*final(r)),
            ),
            final(r).wf() ==> final(self).wf(),
            forall|j: int| j != T::type_slot() ==> ({
                &&& #[trigger] slot_present(*final(self), j) == slot_present(*old(self), j)
                &&& slot_stored(*final(self), j) == slot_stored(*old(self), j)
                &&& slot_changed(*final(self), j) == slot_changed(*old(self), j)
            }),
    {
        let ghost w0 = *self;
        let bit: u128 = 1u128 << T::type_index();
        proof {
            T::lemma_slot(*self, self.mask | bit, None);
        }
        self.mask = self.mask | bit;
        let slot = T::slot_mut(self);
        let r = if slot.is_none() {
            slot.insert(Storage::new())
        } else {
            slot.as_mut().unwrap()
        };
        proof {
            T::lemma_slot(w0, 0, Some(*final(r)));
            let w1 = World { mask: w0.mask | bit, ..w0 };
            T::lemma_slot(w1, 0, Some(*final(r)));
            assert forall|j: int| j != T::type_slot() implies ({
                &&& #[trigger] slot_present(T::replaced(w1, Some(*final(r))), j) == slot_present(w0, j)
                &&& slot_stored(T::replaced(w1, Some(*final(r))), j) == slot_stored(w0, j)
                &&& slot_changed(T::replaced(w1, Some(*final(r))), j) == slot_changed(w0, j)
            }) by {
                assert(slot_present(w1, j) == slot_present(w0, j));
                assert(slot_stored(w1, j) == slot_stored(w0, j));
                assert(slot_changed(w1, j) == slot_changed(w0, j));
            }
        }
        r
    }

    /// Gives slot `k` a storage, empty when it had none; every slot keeps
    /// what it holds.
    pub fn ensure_slot(&mut self, k: u32)
        requires
            old(self).wf(),
            slot_known::<R>(k as int),
        ensures
            final(self).wf(),
            final(self).mask == old(self).mask | (1u128 << k),
            forall|j: int| #[trigger] slot_present(*final(self), j) == (slot_present(*old(self), j) || j == k),
            forall|j: int| #[trigger] slot_stored(*final(self), j) == slot_stored(*old(self), j),
            forall|j: int| #[trigger] slot_changed(*final(self), j) == slot_changed(*old(self), j),
            contents(final(self).entities) == contents(old(self).entities),
            changes(final(self).entities) == changes(old(self).entities),
            contents(final(self).destroyed) == contents(old(self).destroyed),
            changes(final(self).destroyed) == changes(old(self).destroyed),
    {
        proof {
            R::lemma_known();
            lemma_register(self.mask, k);
        }
        if k == 0 {
            self.get::<Entity>();
        } else if k == 1 {
            self.get::<Destroyed>();
        } else {
            self.extra.create(k);
            self.mask = self.mask | (1u128 << k);
        }
        proof {
            assert(contents(self.entities) =~= contents(old(self).entities));
            assert(contents(self.destroyed) =~= contents(old(self).destroyed));
            assert(changes(self.entities) =~= changes(old(self).entities));
            assert(changes(self.destroyed) =~= changes(old(self).destroyed));
        }
    }
}

impl World<Builtins> {
    /// A world without storages, for the world's own components only.
    pub fn new() -> (r: World<Builtins>)
        ensures
            r.wf(),
            r.mask == 0,
            r.entities is None,
            r.destroyed is None,
    {
        World::empty()
    }
}

impl<R: Registry> World<R> {
    /// Creates stage `T` against this world and runs it. Returns the runs of
    /// entity indices the stage reports.
    pub fn run<T: PipelineStage<R>>(&mut self) -> (out: Vec<(u32, u32)>)
        requires
            old(self).wf(),
        ensures
            final(self).wf(),
            stage_step::<R, T>(*old(self), *final(self), out@),
    {
        let stage = T::create(self);
        let ghost mid = *self;
        let out = stage.run(self);
        assert(T::prepared(*old(self), mid) && T::effect(mid, *self, out@));
        out
    }

    /// Schedules stage `T`: creates it against this world and runs it at
    /// once, as `run` does.
    pub fn schedule<T: PipelineStage<R>>(&mut self) -> (out: Vec<(u32, u32)>)
        requires
            old(self).wf(),
        ensures
            final(self).wf(),
            stage_step::<R, T>(*old(self), *final(self), out@),
    {
        self.run::<T>()
    }
}

/// A reference to one of the world's storages, as a query reads it: one of
/// its own, or slot `k` of its registry.
pub enum Source<'a, R> {
    Entities(&'a Storage<Entity>),
    Destroyed(&'a Storage<Destroyed>),
    Extra(&'a R, u32),
}

impl<'a, R: Registry> Presence for Source<'a, R> {
    open spec fn valid(&self) -> bool {
        match self {
            Source::Entities(s) => s.wf(),
            Source::Destroyed(s) => s.wf(),
            Source::Extra(reg, k) => reg.valid() && reg.present(*k as int),
        }
    }

    open spec fn holds(&self, o: int, m: int, i: int) -> bool {
        match self {
            Source::Entities(s) => s.has(o, m, i),
            Source::Destroyed(s) => s.has(o, m, i),
            Source::Extra(reg, k) => reg.holds(*k as int, o, m, i),
        }
    }

    open spec fn marked(&self, o: int, m: int, i: int) -> bool {
        match self {
            Source::Entities(s) => s.dirty(o, m, i),
            Source::Destroyed(s) => s.dirty(o, m, i),
            Source::Extra(reg, k) => reg.marked(*k as int, o, m, i),
        }
    }

    fn outer_presence(&self) -> (r: u128) {
        let r = match self {
            Source::Entities(s) => s.outer_presence(),
            Source::Destroyed(s) => s.outer_presence(),
            Source::Extra(reg, k) => reg.outer_presence(*k),
        };
        proof {
            assert forall|o: int| 0 <= o < 128 implies (#[trigger] has_bit(r, o) <==> exists|m: int, i: int| in_range(o, m, i) && #[trigger] self.holds(o, m, i)) by {
                if has_bit(r, o) {
                    let (m, i) = match self {
                        Source::Entities(s) => choose|m: int, i: int| in_range(o, m, i) && #[trigger] s.holds(o, m, i),
                        Source::Destroyed(s) => choose|m: int, i: int| in_range(o, m, i) && #[trigger] s.holds(o, m, i),
                        Source::Extra(reg, k) => choose|m: int, i: int| in_range(o, m, i) && #[trigger] reg.holds(*k as int, o, m, i),
                    };
                    assert(self.holds(o, m, i));
                }
                if exists|m: int, i: int| in_range(o, m, i) && #[trigger] self.holds(o, m, i) {
                    let (m, i) = choose|m: int, i: int| in_range(o, m, i) && #[trigger] self.holds(o, m, i);
                    match self {
                        Source::Entities(s) => assert(s.holds(o, m, i)),
                        Source::Destroyed(s) => assert(s.holds(o, m, i)),
                        Source::Extra(reg, k) => assert(reg.holds(*k as int, o, m, i)),
                    }
                }
            }
            assert forall|o: int, m: int, i: int| in_range(o, m, i) && #[trigger] self.holds(o, m, i) implies has_bit(r, o) by {
                assert(exists|m2: int, i2: int| in_range(o, m2, i2) && #[trigger] self.holds(o, m2, i2)) by {
                    assert(self.holds(o, m, i));
                }
            }
        }
        r
    }

    fn middle_presence(&self, o: u32) -> (r: u128) {
        let r = match self {
            Source::Entities(s) => s.middle_presence(o),
            Source::Destroyed(s) => s.middle_presence(o),
            Source::Extra(reg, k) => reg.middle_presence(*k, o),
        };
        proof {
            assert forall|m: int| 0 <= m < 128 implies (#[trigger] has_bit(r, m) <==> exists|i: int| 0 <= i < 128 && #[trigger] self.holds(o as int, m, i)) by {
                if has_bit(r, m) {
                    let i = match self {
                        Source::Entities(s) => choose|i: int| 0 <= i < 128 && #[trigger] s.holds(o as int, m, i),
                        Source::Destroyed(s) => choose|i: int| 0 <= i < 128 && #[trigger] s.holds(o as int, m, i),
                        Source::Extra(reg, k) => choose|i: int| 0 <= i < 128 && #[trigger] reg.holds(*k as int, o as int, m, i),
                    };
                    assert(self.holds(o as int, m, i));
                }
                if exists|i: int| 0 <= i < 128 && #[trigger] self.holds(o as int, m, i) {
                    let i = choose|i: int| 0 <= i < 128 && #[trigger] self.holds(o as int, m, i);
                    match self {
                        Source::Entities(s) => assert(s.holds(o as int, m, i)),
                        Source::Destroyed(s) => assert(s.holds(o as int, m, i)),
                        Source::Extra(reg, k) => assert(reg.holds(*k as int, o as int, m, i)),
                    }
                }
            }
            assert forall|m: int, i: int| in_range(o as int, m, i) && #[trigger] self.holds(o as int, m, i) implies has_bit(r, m) by {
                assert(exists|i2: int| 0 <= i2 < 128 && #[trigger] self.holds(o as int, m, i2)) by {
                    assert(self.holds(o as int, m, i));
                }
            }
        }
        r
    }

    fn middle_full(&self, o: u32) -> (r: u128) {
        let r = match self {
            Source::Entities(s) => s.middle_full(o),
            Source::Destroyed(s) => s.middle_full(o),
            Source::Extra(reg, k) => reg.middle_full(*k, o),
        };
        proof {
            assert forall|m: int| 0 <= m < 128 implies (#[trigger] has_bit(r, m) <==> forall|i: int| 0 <= i < 128 ==> #[trigger] self.holds(o as int, m, i)) by {
                if has_bit(r, m) {
                    assert forall|i: int| 0 <= i < 128 implies #[trigger] self.holds(o as int, m, i) by {
                        match self {
                            Source::Entities(s) => assert(s.holds(o as int, m, i)),
                            Source::Destroyed(s) => assert(s.holds(o as int, m, i)),
                            Source::Extra(reg, k) => assert(reg.holds(*k as int, o as int, m, i)),
                        }
                    }
                }
                if forall|i: int| 0 <= i < 128 ==> #[trigger] self.holds(o as int, m, i) {
                    match self {
                        Source::Entities(s) => {
                            assert forall|i: int| 0 <= i < 128 implies #[trigger] s.holds(o as int, m, i) by {
                                assert(self.holds(o as int, m, i));
                            }
                        },
                        Source::Destroyed(s) => {
                            assert forall|i: int| 0 <= i < 128 implies #[trigger] s.holds(o as int, m, i) by {
                                assert(self.holds(o as int, m, i));
                            }
                        },
                        Source::Extra(reg, k) => {
                            assert forall|i: int| 0 <= i < 128 implies #[trigger] reg.holds(*k as int, o as int, m, i) by {
                                assert(self.holds(o as int, m, i));
                            }
                        },
                    }
                }
            }
            assert forall|m: int, i: int| in_range(o as int, m, i) && has_bit(r, m) implies #[trigger] self.holds(o as int, m, i) by {
                assert(0 <= m < 128 && 0 <= i < 128);
            }
        }
        r
    }

    fn inner_presence(&self, o: u32, m: u32) -> (r: u128) {
        match self {
            Source::Entities(s) => s.inner_presence(o, m),
            Source::Destroyed(s) => s.inner_presence(o, m),
            Source::Extra(reg, k) => reg.inner_presence(*k, o, m),
        }
    }

    fn outer_change(&self) -> (r: u128) {
        let r = match self {
            Source::Entities(s) => s.outer_change(),
            Source::Destroyed(s) => s.outer_change(),
            Source::Extra(reg, k) => reg.outer_change(*k),
        };
        proof {
            assert forall|o: int| 0 <= o < 128 implies (#[trigger] has_bit(r, o) <==> exists|m: int, i: int| in_range(o, m, i) && #[trigger] self.marked(o, m, i)) by {
                if has_bit(r, o) {
                    let (m, i) = match self {
                        Source::Entities(s) => choose|m: int, i: int| in_range(o, m, i) && #[trigger] s.marked(o, m, i),
                        Source::Destroyed(s) => choose|m: int, i: int| in_range(o, m, i) && #[trigger] s.marked(o, m, i),
                        Source::Extra(reg, k) => choose|m: int, i: int| in_range(o, m, i) && #[trigger] reg.marked(*k as int, o, m, i),
                    };
                    assert(self.marked(o, m, i));
                }
                if exists|m: int, i: int| in_range(o, m, i) && #[trigger] self.marked(o, m, i) {
                    let (m, i) = choose|m: int, i: int| in_range(o, m, i) && #[trigger] self.marked(o, m, i);
                    match self {
                        Source::Entities(s) => assert(s.marked(o, m, i)),
                        Source::Destroyed(s) => assert(s.marked(o, m, i)),
                        Source::Extra(reg, k) => assert(reg.marked(*k as int, o, m, i)),
                    }
                }
            }
            assert forall|o: int, m: int, i: int| in_range(o, m, i) && #[trigger] self.marked(o, m, i) implies has_bit(r, o) by {
                assert(exists|m2: int, i2: int| in_range(o, m2, i2) && #[trigger] self.marked(o, m2, i2)) by {
                    assert(self.marked(o, m, i));
                }
            }
        }
        r
    }

    fn middle_change(&self, o: u32) -> (r: u128) {
        let r = match self {
            Source::Entities(s) => s.middle_change(o),
            Source::Destroyed(s) => s.middle_change(o),
            Source::Extra(reg, k) => reg.middle_change(*k, o),
        };
        proof {
            assert forall|m: int| 0 <= m < 128 implies (#[trigger] has_bit(r, m) <==> exists|i: int| 0 <= i < 128 && #[trigger] self.marked(o as int, m, i)) by {
                if has_bit(r, m) {
                    let i = match self {
                        Source::Entities(s) => choose|i: int| 0 <= i < 128 && #[trigger] s.marked(o as int, m, i),
                        Source::Destroyed(s) => choose|i: int| 0 <= i < 128 && #[trigger] s.marked(o as int, m, i),
                        Source::Extra(reg, k) => choose|i: int| 0 <= i < 128 && #[trigger] reg.marked(*k as int, o as int, m, i),
                    };
                    assert(self.marked(o as int, m, i));
                }
                if exists|i: int| 0 <= i < 128 && #[trigger] self.marked(o as int, m, i) {
                    let i = choose|i: int| 0 <= i < 128 && #[trigger] self.marked(o as int, m, i);
                    match self {
                        Source::Entities(s) => assert(s.marked(o as int, m, i)),
                        Source::Destroyed(s) => assert(s.marked(o as int, m, i)),
                        Source::Extra(reg, k) => assert(reg.marked(*k as int, o as int, m, i)),
                    }
                }
            }
            assert forall|m: int, i: int| in_range(o as int, m, i) && #[trigger] self.marked(o as int, m, i) implies has_bit(r, m) by {
                assert(exists|i2: int| 0 <= i2 < 128 && #[trigger] self.marked(o as int, m, i2)) by {
                    assert(self.marked(o as int, m, i));
                }
            }
        }
        r
    }

    fn inner_change(&self, o: u32, m: u32) -> (r: u128) {
        match self {
            Source::Entities(s) => s.inner_change(o, m),
            Source::Destroyed(s) => s.inner_change(o, m),
            Source::Extra(reg, k) => reg.inner_change(*k, o, m),
        }
    }
}

} // verus!
