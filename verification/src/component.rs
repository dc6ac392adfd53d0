//! Components: the kinds of data a world stores per entity, each with its
//! own storage slot in the world.
use vstd::prelude::*;
use crate::storage::Storage;
use crate::mask::{has_bit, lemma_bit_or, lemma_bit_single};
use crate::world::{World, changes, contents, slot_changed, slot_present, slot_stored};
use crate::registry::Registry;

verus! {

/// A kind of data stored per entity, with a fixed slot among the storages
/// of a world whose added components registry `R` keeps.
pub trait Component<R: Registry>: Sized {
    /// The slot of this component's storage among the world's 128.
    spec fn type_slot() -> u32;

    /// The storage of this component in `world`, if it was created.
    spec fn stored(world: World<R>) -> Option<Storage<Self>>;

    /// `world` with the storage of this component replaced by `s`.
    spec fn replaced(world: World<R>, s: Option<Storage<Self>>) -> World<R>;

    /// Where the storage is kept does not depend on the mask; in a
    /// well-formed world the mask bit of the slot tells whether it exists;
    /// the slot's contents are those of the storage; and replacing the
    /// storage keeps every other slot.
    proof fn lemma_slot(world: World<R>, mask: u128, s: Option<Storage<Self>>)
        ensures
            Self::stored(World { mask, ..world }) == Self::stored(world),
            Self::stored(Self::replaced(world, s)) == s,
            Self::replaced(world, s).mask == world.mask,
            Self::replaced(World { mask, ..world }, s) == (World { mask, ..Self::replaced(world, s) }),
            world.wf() && (s is Some == Self::stored(world) is Some) && (s is Some ==> s.unwrap().wf()) ==> Self::replaced(world, s).wf(),
            world.wf() && s is Some && s.unwrap().wf() ==> Self::replaced(World { mask: world.mask | (1u128 << Self::type_slot()), ..world }, s).wf(),
            world.wf() ==> (has_bit(world.mask, Self::type_slot() as int) <==> Self::stored(world) is Some),
            world.wf() && Self::stored(world) is Some ==> Self::stored(world).unwrap().wf(),
            Self::type_slot() < 128,
            slot_present(world, Self::type_slot() as int) == Self::stored(world) is Some,
            slot_stored(world, Self::type_slot() as int) == contents(Self::stored(world)).dom(),
            slot_changed(world, Self::type_slot() as int) == changes(Self::stored(world)),
            forall|j: int| j != Self::type_slot() ==> ({
                &&& #[trigger] slot_present(Self::replaced(world, s), j) == slot_present(world, j)
                &&& slot_stored(Self::replaced(world, s), j) == slot_stored(world, j)
                &&& slot_changed(Self::replaced(world, s), j) == slot_changed(world, j)
            }),
            Self::type_slot() != 0 ==> Self::replaced(world, s).entities == world.entities,
            Self::type_slot() != 1 ==> Self::replaced(world, s).destroyed == world.destroyed,
    ;

    /// The slot of this component's storage.
    fn type_index() -> (r: usize)
        ensures
            r == Self::type_slot(),
            r < 128,
    ;

    /// Mutable access to where the world keeps this component's storage.
    fn slot_mut(world: &mut World<R>) -> (r: &mut Option<Storage<Self>>)
        ensures
            *r == Self::stored(*old(world)),
            *final(world) == Self::replaced(*old(world), *final(r)),
    ;
}

/// Setting bit `k` of a mask sets that bit and keeps the others.
pub(crate) proof fn lemma_register(mask: u128, k: u32)
    requires
        k < 128,
    ensures
        forall|j: int| #[trigger] has_bit(mask | (1u128 << k), j) == (has_bit(mask, j) || j == k),
{
    assert forall|j: int| #[trigger] has_bit(mask | (1u128 << k), j) == (has_bit(mask, j) || j == k) by {
        lemma_bit_or(mask, 1u128 << k, j);
        lemma_bit_single(k, j);
    }
}

/// A component that carries no data: only its presence matters.
pub trait Tag<R: Registry>: Component<R> {
}

/// An entity: the index of its slot in every storage.
#[derive(Clone, Copy, Debug, PartialEq, Eq, Structural)]
pub struct Entity {
    pub index: u32,
}

impl Entity {
    /// The entity's index.
    pub fn index(&self) -> (r: u32)
        ensures
            r == self.index,
    {
        self.index
    }
}

/// Tag of an entity that is to be destroyed.
#[derive(Clone, Copy, Debug, PartialEq, Eq, Structural)]
pub struct Destroyed {}

impl<R: Registry> Component<R> for Entity {
    open spec fn type_slot() -> u32 {
        0
    }

    open spec fn stored(world: World<R>) -> Option<Storage<Entity>> {
        world.entities
    }

    open spec fn replaced(world: World<R>, s: Option<Storage<Entity>>) -> World<R> {
        World { entities: s, ..world }
    }

    proof fn lemma_slot(world: World<R>, mask: u128, s: Option<Storage<Self>>) {
        lemma_register(world.mask, 0);
    }

    fn type_index() -> (r: usize) {
        0
    }

    fn slot_mut(world: &mut World<R>) -> (r: &mut Option<Storage<Entity>>) {
        &mut world.entities
    }
}

impl<R: Registry> Component<R> for Destroyed {
    open spec fn type_slot() -> u32 {
        1
    }

    open spec fn stored(world: World<R>) -> Option<Storage<Destroyed>> {
        world.destroyed
    }

    open spec fn replaced(world: World<R>, s: Option<Storage<Destroyed>>) -> World<R> {
        World { destroyed: s, ..world }
    }

    proof fn lemma_slot(world: World<R>, mask: u128, s: Option<Storage<Self>>) {
        lemma_register(world.mask, 1);
    }

    fn type_index() -> (r: usize) {
        1
    }

    fn slot_mut(world: &mut World<R>) -> (r: &mut Option<Storage<Destroyed>>) {
        &mut world.destroyed
    }
}

impl<R: Registry> Tag<R> for Destroyed {
}

} // verus!
