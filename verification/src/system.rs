//! Systems: stages that run a query over the world's storages and act on the
//! entities it selects.
use vstd::prelude::*;
use crate::component::{Component, Destroyed, Entity};
use crate::index::{CAPACITY, in_range, inner_of, ix, lemma_split_ix, middle_of, outer_of};
use crate::mask::{covers, in_run, runs_ordered, runs_within, lemma_covers_push};
use crate::query::{Presence, Query, lemma_covers_exactly, runs_apart_in_leaves, runs_in_leaves};
use crate::storage::{Storage, lemma_changed_subset, lemma_view_at};
use crate::world::{Source, World, changes, contents, slot_changed, slot_present, slot_stored};
use crate::registry::Registry;

verus! {

/// The indices that some run of `runs` covers.
pub open spec fn covered(runs: Seq<(u32, u32)>) -> Set<int> {
    Set::new(|idx: int| covers(runs, idx))
}

/// A stage of the pipeline: created against a world, then run over it.
pub trait PipelineStage<R: Registry>: Sized {
    /// How creating the stage changes the world.
    spec fn prepared(pre: World<R>, post: World<R>) -> bool;

    /// How running the stage changes the world, and the runs of entity
    /// indices it reports.
    spec fn effect(pre: World<R>, post: World<R>, out: Seq<(u32, u32)>) -> bool;

    /// The component slots the stage reads.
    spec fn read_slots() -> Seq<usize>;

    /// The component slots the stage writes.
    spec fn write_slots() -> Seq<usize>;

    fn create(world: &mut World<R>) -> (r: Self)
        requires
            old(world).wf(),
        ensures
            final(world).wf(),
            Self::prepared(*old(world), *final(world)),
    ;

    fn run(&self, world: &mut World<R>) -> (out: Vec<(u32, u32)>)
        requires
            old(world).wf(),
        ensures
            final(world).wf(),
            Self::effect(*old(world), *final(world), out@),
    ;

    fn reads(&self) -> (r: Vec<usize>)
        ensures
            r@ == Self::read_slots(),
    ;

    fn writes(&self) -> (r: Vec<usize>)
        ensures
            r@ == Self::write_slots(),
    ;
}

/// Creating stage `T` against `pre` and running it can leave `post` and
/// report `out`.
pub open spec fn stage_step<R: Registry, T: PipelineStage<R>>(pre: World<R>, post: World<R>, out: Seq<(u32, u32)>) -> bool {
    exists|mid: World<R>| T::prepared(pre, mid) && #[trigger] T::effect(mid, post, out)
}

/// Two worlds with the same mask, the same storages in every slot holding
/// components for the same entities with the same marks, and the same
/// entities and tags.
pub open spec fn alike<R: Registry>(a: World<R>, b: World<R>) -> bool {
    &&& a.mask == b.mask
    &&& forall|j: int| #[trigger] slot_present(a, j) == slot_present(b, j)
    &&& forall|j: int| #[trigger] slot_stored(a, j) == slot_stored(b, j)
    &&& forall|j: int| #[trigger] slot_changed(a, j) == slot_changed(b, j)
    &&& contents(a.entities) == contents(b.entities)
    &&& contents(a.destroyed) == contents(b.destroyed)
}

/// Stage `T` ends every run from one world in alike worlds with the same
/// runs reported.
pub open spec fn stage_deterministic<R: Registry, T: PipelineStage<R>>() -> bool {
    forall|pre: World<R>, post1: World<R>, out1: Seq<(u32, u32)>, post2: World<R>, out2: Seq<(u32, u32)>|
        #[trigger] stage_step::<R, T>(pre, post1, out1) && #[trigger] stage_step::<R, T>(pre, post2, out2)
            ==> out1 == out2 && alike(post1, post2)
}

/// Removes from a storage the components of every index the runs cover.
pub fn remove_covered<A>(a: &mut Storage<A>, spans: &Vec<(u32, u32)>)
    requires
        old(a).wf(),
        runs_within(spans@, 0, CAPACITY as int),
    ensures
        final(a).wf(),
        final(a)@ == old(a)@.remove_keys(covered(spans@)),
        final(a).changed() == old(a).changed().difference(covered(spans@)),
{
    let ghost a0 = *a;
    let ghost mut done: Set<int> = Set::empty();
    let mut k: usize = 0;
    assert(a@ =~= a0@.remove_keys(done));
    assert(a.changed() =~= a0.changed().difference(done));
    while k < spans.len()
        invariant
            0 <= k <= spans.len(),
            runs_within(spans@, 0, CAPACITY as int),
            a.wf(),
            a@ == a0@.remove_keys(done),
            a.changed() == a0.changed().difference(done),
            forall|x: int| #[trigger] done.contains(x) <==> covers(spans@.subrange(0, k as int), x),
        decreases spans.len() - k,
    {
        let (start, len) = spans[k];
        assert(spans@[k as int].1 > 0);
        let mut j: u32 = start;
        while j < start + len
            invariant
                0 <= k < spans.len(),
                spans@[k as int] == (start, len),
                start <= j <= start + len <= CAPACITY,
                a.wf(),
                a@ == a0@.remove_keys(done),
                a.changed() == a0.changed().difference(done),
                forall|x: int| #[trigger] done.contains(x) <==> (covers(spans@.subrange(0, k as int), x) || (start <= x < j)),
            decreases start + len - j,
        {
            a.remove(j);
            proof {
                let d2 = done.insert(j as int);
                assert(a@ =~= a0@.remove_keys(d2));
                assert(a.changed() =~= a0.changed().difference(d2));
                done = d2;
            }
            j = j + 1;
        }
        proof {
            assert forall|x: int| #[trigger] done.contains(x) <==> covers(spans@.subrange(0, k + 1), x) by {
                assert(spans@.subrange(0, k + 1) =~= spans@.subrange(0, k as int).push(spans@[k as int]));
                lemma_covers_push(spans@.subrange(0, k as int), spans@[k as int], x);
            }
        }
        k = k + 1;
    }
    proof {
        assert(spans@.subrange(0, k as int) =~= spans@);
        assert(done =~= covered(spans@));
    }
}

/// Destroys the entities tagged `Destroyed`: removes their entity and their
/// tag. Reports the indices it destroyed.
pub struct DestroySystem {}

/// The indices that have both an entity and a `Destroyed` tag.
pub open spec fn doomed<R: Registry>(w: World<R>) -> Set<int> {
    contents(w.entities).dom().intersect(contents(w.destroyed).dom())
}

impl<R: Registry> PipelineStage<R> for DestroySystem {
    open spec fn prepared(pre: World<R>, post: World<R>) -> bool {
        &&& post.mask == pre.mask | 3u128
        &&& post.extra == pre.extra
        &&& post.entities is Some
        &&& post.destroyed is Some
        &&& contents(post.entities) == contents(pre.entities)
        &&& changes(post.entities) == changes(pre.entities)
        &&& contents(post.destroyed) == contents(pre.destroyed)
        &&& changes(post.destroyed) == changes(pre.destroyed)
    }

    open spec fn effect(pre: World<R>, post: World<R>, out: Seq<(u32, u32)>) -> bool {
        &&& post.mask == pre.mask
        &&& post.extra == pre.extra
        &&& (post.entities is Some) == (pre.entities is Some)
        &&& (post.destroyed is Some) == (pre.destroyed is Some)
        &&& contents(post.entities) == contents(pre.entities).remove_keys(doomed(pre))
        &&& contents(post.destroyed) == contents(pre.destroyed).remove_keys(doomed(pre))
        &&& changes(post.entities) == changes(pre.entities).difference(doomed(pre))
        &&& changes(post.destroyed) == changes(pre.destroyed).difference(doomed(pre))
        &&& covered(out) == doomed(pre)
        &&& runs_within(out, 0, CAPACITY as int)
        &&& runs_ordered(out)
        &&& runs_in_leaves(out)
        &&& runs_apart_in_leaves(out)
    }

    open spec fn read_slots() -> Seq<usize> {
        seq![0usize, 1usize]
    }

    open spec fn write_slots() -> Seq<usize> {
        seq![0usize, 1usize]
    }

    fn create(world: &mut World<R>) -> (r: DestroySystem) {
        let ghost m0 = world.mask;
        world.get::<Entity>();
        world.get::<Destroyed>();
        assert(((m0 | (1u128 << 0u32)) | (1u128 << 1u32)) == (m0 | 3u128)) by (bit_vector);
        DestroySystem {}
    }

    fn run(&self, world: &mut World<R>) -> (out: Vec<(u32, u32)>) {
        let ghost w0 = *world;
        let spans = match (&world.entities, &world.destroyed) {
            (Some(e), Some(d)) => {
                let q = Query {
                    views: Vec::new(),
                    all: vec![Source::<R>::Entities(e), Source::<R>::Destroyed(d)],
                    none: Vec::new(),
                    changed: Vec::new(),
                };
                let spans = q.run();
                proof {
                    crate::storage::lemma_view_finite(*e);
                    assert forall|o: int, m: int, i: int| in_range(o, m, i) implies (covers(spans@, #[trigger] ix(o, m, i)) <==> doomed(w0).contains(ix(o, m, i))) by {
                        lemma_view_at(*e, o, m, i);
                        lemma_view_at(*d, o, m, i);
                        assert(q.matches(o, m, i) <==> (e.has(o, m, i) && d.has(o, m, i))) by {
                            if e.has(o, m, i) && d.has(o, m, i) {
                                assert forall|k: int| 0 <= k < q.all@.len() implies #[trigger] q.all@[k].holds(o, m, i) by {
                                    if k == 0 {
                                        assert(q.all@[0] == Source::<R>::Entities(e));
                                    } else {
                                        assert(q.all@[1] == Source::<R>::Destroyed(d));
                                    }
                                }
                            }
                            if q.matches(o, m, i) {
                                assert(q.all@[0].holds(o, m, i));
                                assert(q.all@[1].holds(o, m, i));
                            }
                        }
                    }
                    lemma_covers_exactly(spans@, doomed(w0));
                }
                spans
            },
            _ => {
                let spans: Vec<(u32, u32)> = Vec::new();
                proof {
                    assert(doomed(w0) =~= Set::<int>::empty());
                    assert forall|idx: int| #[trigger] covers(spans@, idx) <==> doomed(w0).contains(idx) by {}
                }
                spans
            },
        };
        proof {
            assert(covered(spans@) =~= doomed(w0));
        }
        if world.entities.is_some() && world.destroyed.is_some() {
            if let Some(e) = &mut world.entities {
                remove_covered(e, &spans);
            }
            if let Some(d) = &mut world.destroyed {
                remove_covered(d, &spans);
            }
        }
        proof {
            if w0.entities is None || w0.destroyed is None {
                assert(contents(w0.entities).remove_keys(doomed(w0)) =~= contents(w0.entities));
                assert(contents(w0.destroyed).remove_keys(doomed(w0)) =~= contents(w0.destroyed));
                assert(changes(w0.entities).difference(doomed(w0)) =~= changes(w0.entities));
                assert(changes(w0.destroyed).difference(doomed(w0)) =~= changes(w0.destroyed));
            }
        }
        spans
    }

    fn reads(&self) -> (r: Vec<usize>) {
        let r = vec![0usize, 1usize];
        assert(r@ =~= seq![0usize, 1usize]);
        r
    }

    fn writes(&self) -> (r: Vec<usize>) {
        let r = vec![0usize, 1usize];
        assert(r@ =~= seq![0usize, 1usize]);
        r
    }
}

/// Reports the entities whose `Entity` component changed since the last
/// clean-up; the world is left as it is.
pub struct PrintEntitySystem {}

impl<R: Registry> PipelineStage<R> for PrintEntitySystem {
    open spec fn prepared(pre: World<R>, post: World<R>) -> bool {
        &&& post.mask == pre.mask | 1u128
        &&& post.extra == pre.extra
        &&& post.entities is Some
        &&& contents(post.entities) == contents(pre.entities)
        &&& changes(post.entities) == changes(pre.entities)
        &&& post.destroyed == pre.destroyed
    }

    open spec fn effect(pre: World<R>, post: World<R>, out: Seq<(u32, u32)>) -> bool {
        &&& post == pre
        &&& covered(out) == changes(pre.entities)
        &&& runs_within(out, 0, CAPACITY as int)
        &&& runs_ordered(out)
        &&& runs_in_leaves(out)
        &&& runs_apart_in_leaves(out)
    }

    open spec fn read_slots() -> Seq<usize> {
        seq![0usize]
    }

    open spec fn write_slots() -> Seq<usize> {
        Seq::empty()
    }

    fn create(world: &mut World<R>) -> (r: PrintEntitySystem) {
        let ghost m0 = world.mask;
        world.get::<Entity>();
        assert((m0 | (1u128 << 0u32)) == (m0 | 1u128)) by (bit_vector);
        PrintEntitySystem {}
    }

    fn run(&self, world: &mut World<R>) -> (out: Vec<(u32, u32)>) {
        let ghost w0 = *world;
        match &world.entities {
            Some(e) => {
                let q = Query {
                    views: vec![Source::<R>::Entities(e)],
                    all: Vec::new(),
                    none: Vec::new(),
                    changed: vec![Source::Entities(e)],
                };
                let spans = q.run();
                proof {
                    lemma_changed_subset(*e);
                    crate::storage::lemma_view_finite(*e);
                    assert forall|o: int, m: int, i: int| in_range(o, m, i) implies (covers(spans@, #[trigger] ix(o, m, i)) <==> changes(w0.entities).contains(ix(o, m, i))) by {
                        lemma_view_at(*e, o, m, i);
                        assert(q.views@[0] == Source::<R>::Entities(e));
                        assert(q.changed@[0] == Source::<R>::Entities(e));
                        assert(q.matches(o, m, i) <==> (e.has(o, m, i) && e.dirty(o, m, i))) by {
                            if q.matches(o, m, i) {
                                assert(q.views@[0].holds(o, m, i));
                                assert(q.changed@[0].marked(o, m, i));
                            }
                        }
                    }
                    lemma_covers_exactly(spans@, changes(w0.entities));
                    assert(covered(spans@) =~= changes(w0.entities));
                }
                spans
            },
            None => {
                let spans: Vec<(u32, u32)> = Vec::new();
                proof {
                    assert(covered(spans@) =~= changes(w0.entities));
                }
                spans
            },
        }
    }

    fn reads(&self) -> (r: Vec<usize>) {
        let r = vec![0usize];
        assert(r@ =~= seq![0usize]);
        r
    }

    fn writes(&self) -> (r: Vec<usize>) {
        let r: Vec<usize> = Vec::new();
        assert(r@ =~= Seq::<usize>::empty());
        r
    }
}

/// Clears the change marks of component `T`; the components stay.
pub struct ChangeCleanupSystem<T> {
    pub marker: std::marker::PhantomData<T>,
}

impl<R: Registry, T: Component<R>> PipelineStage<R> for ChangeCleanupSystem<T> {
    open spec fn prepared(pre: World<R>, post: World<R>) -> bool {
        &&& post.mask == pre.mask | (1u128 << T::type_slot())
        &&& T::stored(post) is Some
        &&& contents(T::stored(post)) == contents(T::stored(pre))
        &&& changes(T::stored(post)) == changes(T::stored(pre))
        &&& post == T::replaced(World { mask: post.mask, ..pre }, T::stored(post))
    }

    open spec fn effect(pre: World<R>, post: World<R>, out: Seq<(u32, u32)>) -> bool {
        &&& post == T::replaced(pre, T::stored(post))
        &&& contents(T::stored(post)) == contents(T::stored(pre))
        &&& changes(T::stored(post)) == Set::<int>::empty()
        &&& out.len() == 0
    }

    open spec fn read_slots() -> Seq<usize> {
        Seq::empty()
    }

    open spec fn write_slots() -> Seq<usize> {
        seq![T::type_slot() as usize]
    }

    fn create(world: &mut World<R>) -> (r: ChangeCleanupSystem<T>) {
        let ghost w0 = *world;
        proof {
            T::lemma_slot(w0, 0, None);
        }
        let r = world.get::<T>();
        proof {
            let w1 = World { mask: w0.mask | (1u128 << T::type_slot()), ..w0 };
            T::lemma_slot(w1, 0, Some(*r));
        }
        ChangeCleanupSystem { marker: std::marker::PhantomData }
    }

    fn run(&self, world: &mut World<R>) -> (out: Vec<(u32, u32)>) {
        let ghost w0 = *world;
        proof {
            T::lemma_slot(w0, 0, None);
        }
        let slot = T::slot_mut(world);
        proof {
            T::lemma_slot(w0, 0, *final(slot));
        }
        match slot.as_mut() {
            Some(s) => {
                s.clear_changes();
            },
            None => {},
        }
        proof {
            if T::stored(*world) is None {
                assert(changes(T::stored(*world)) =~= Set::<int>::empty());
            }
        }
        Vec::new()
    }

    fn reads(&self) -> (r: Vec<usize>) {
        let r: Vec<usize> = Vec::new();
        assert(r@ =~= Seq::<usize>::empty());
        r
    }

    fn writes(&self) -> (r: Vec<usize>) {
        let r = vec![T::type_index()];
        assert(r@ =~= seq![T::type_slot() as usize]);
        r
    }
}

} // verus!
