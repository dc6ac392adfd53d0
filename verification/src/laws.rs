//! Properties that span several operations of the library.
use vstd::prelude::*;
use crate::component::{Component, Destroyed, Entity};
use crate::declared::{aliased, clause, clause_names, named, reads_of, removes, resolve, resolve_ty, resolvable, selected, view_slots_where, writes_of};
use crate::registry::Registry;
use crate::dsl::{ArgSpec, BANG, Delim, FilterKind, balanced, delim_stack, depth, kinds_match, nested, FilterSpec, SystemSpec, Tok, filter_render, render_all, render_block, render_filter, render_query, render_system, system_ok, word_query};
use crate::query::{lemma_runs_unique, runs_apart_in_leaves, runs_in_leaves};
use crate::mask::{covers, runs_ordered, runs_within};
use crate::index::CAPACITY;
use crate::storage::{Storage, lemma_changed_subset, lemma_view_finite};
use crate::system::{ChangeCleanupSystem, DestroySystem, PipelineStage, PrintEntitySystem, alike, covered, doomed, stage_deterministic, stage_step};
use crate::world::{World, changes, contents, slot_changed, slot_present, slot_stored};

verus! {

/// Storing a component adds one to the count exactly when the entity had
/// none: `b` is `a` after `set(idx, v)`.
pub proof fn law_len_after_set<T>(a: Storage<T>, b: Storage<T>, idx: int, v: T)
    requires
        a.wf(),
        b@ == a@.insert(idx, v),
    ensures
        b@[idx] == v,
        b@.dom().len() == a@.dom().len() + if a@.dom().contains(idx) { 0int } else { 1int },
{
    lemma_view_finite(a);
    if a@.dom().contains(idx) {
        assert(b@.dom() =~= a@.dom());
    }
}

/// Removing a component takes one from the count exactly when the entity
/// had one: `b` is `a` after `remove(idx)`.
pub proof fn law_len_after_remove<T>(a: Storage<T>, b: Storage<T>, idx: int)
    requires
        a.wf(),
        b@ == a@.remove(idx),
    ensures
        !b@.dom().contains(idx),
        b@.dom().len() == a@.dom().len() - if a@.dom().contains(idx) { 1int } else { 0int },
{
    lemma_view_finite(a);
    if !a@.dom().contains(idx) {
        assert(b@.dom() =~= a@.dom());
    }
}

/// Removing what was just stored for an entity that had nothing gives back
/// the storage's contents and change marks: `b` is `a` after `set(idx, v)`,
/// `c` is `b` after `remove(idx)`.
pub proof fn law_remove_undoes_set<T>(a: Storage<T>, b: Storage<T>, c: Storage<T>, idx: int, v: T)
    requires
        a.wf(),
        !a@.dom().contains(idx),
        b@ == a@.insert(idx, v),
        b.changed() == a.changed().insert(idx),
        c@ == b@.remove(idx),
        c.changed() == b.changed().remove(idx),
    ensures
        c@ == a@,
        c.changed() == a.changed(),
{
    lemma_changed_subset(a);
    assert(c@ =~= a@);
    assert(c.changed() =~= a.changed());
}

/// Only stored components are marked changed.
pub proof fn law_changed_within_stored<T>(s: Storage<T>)
    requires
        s.wf(),
    ensures
        s.changed().subset_of(s@.dom()),
{
    lemma_changed_subset(s);
}

/// After the destroy system no entity is both alive and tagged destroyed,
/// and it reported exactly the ones it removed.
pub proof fn law_destroy_leaves_no_doomed<R: Registry>(pre: World<R>, post: World<R>, out: Seq<(u32, u32)>)
    requires
        <DestroySystem as PipelineStage<R>>::effect(pre, post, out),
    ensures
        doomed(post) == Set::<int>::empty(),
        forall|idx: int| covered(out).contains(idx) ==> !contents(post.entities).dom().contains(idx) && !contents(post.destroyed).dom().contains(idx),
{
    assert(doomed(post) =~= Set::<int>::empty());
}

/// Running the destroy system a second time removes and reports nothing.
pub proof fn law_destroy_idempotent<R: Registry>(pre: World<R>, mid: World<R>, post: World<R>, out1: Seq<(u32, u32)>, out2: Seq<(u32, u32)>)
    requires
        <DestroySystem as PipelineStage<R>>::effect(pre, mid, out1),
        <DestroySystem as PipelineStage<R>>::effect(mid, post, out2),
    ensures
        covered(out2) == Set::<int>::empty(),
        contents(post.entities) == contents(mid.entities),
        contents(post.destroyed) == contents(mid.destroyed),
{
    law_destroy_leaves_no_doomed(pre, mid, out1);
    assert(contents(post.entities) =~= contents(mid.entities));
    assert(contents(post.destroyed) =~= contents(mid.destroyed));
}

/// Once the change marks of entities are cleared, the print system reports
/// nothing.
pub proof fn law_cleanup_silences_print<R: Registry>(pre: World<R>, mid: World<R>, post: World<R>, out1: Seq<(u32, u32)>, out2: Seq<(u32, u32)>)
    requires
        <ChangeCleanupSystem<Entity> as PipelineStage<R>>::effect(pre, mid, out1),
        <PrintEntitySystem as PipelineStage<R>>::effect(mid, post, out2),
    ensures
        covered(out2) == Set::<int>::empty(),
        contents(post.entities) == contents(pre.entities),
{
}

/// Running the destroy system twice from the same world gives the same
/// result: the same runs and the same storages.
pub proof fn law_destroy_deterministic<R: Registry>(
    pre: World<R>,
    mid1: World<R>,
    post1: World<R>,
    out1: Seq<(u32, u32)>,
    mid2: World<R>,
    post2: World<R>,
    out2: Seq<(u32, u32)>,
)
    requires
        <DestroySystem as PipelineStage<R>>::prepared(pre, mid1),
        <DestroySystem as PipelineStage<R>>::effect(mid1, post1, out1),
        <DestroySystem as PipelineStage<R>>::prepared(pre, mid2),
        <DestroySystem as PipelineStage<R>>::effect(mid2, post2, out2),
    ensures
        out1 == out2,
        post1.mask == post2.mask,
        contents(post1.entities) == contents(post2.entities),
        contents(post1.destroyed) == contents(post2.destroyed),
        changes(post1.entities) == changes(post2.entities),
        changes(post1.destroyed) == changes(post2.destroyed),
{
    assert(doomed(mid1) == doomed(mid2));
    assert forall|idx: int| #![trigger covers(out1, idx)] #![trigger covers(out2, idx)] covers(out1, idx) == covers(out2, idx) by {
        assert(covered(out1).contains(idx) == covered(out2).contains(idx));
    }
    lemma_runs_unique(out1, out2);
}

/// Running the print system twice from the same world gives the same runs
/// and leaves the storages alike.
pub proof fn law_print_deterministic<R: Registry>(
    pre: World<R>,
    mid1: World<R>,
    post1: World<R>,
    out1: Seq<(u32, u32)>,
    mid2: World<R>,
    post2: World<R>,
    out2: Seq<(u32, u32)>,
)
    requires
        <PrintEntitySystem as PipelineStage<R>>::prepared(pre, mid1),
        <PrintEntitySystem as PipelineStage<R>>::effect(mid1, post1, out1),
        <PrintEntitySystem as PipelineStage<R>>::prepared(pre, mid2),
        <PrintEntitySystem as PipelineStage<R>>::effect(mid2, post2, out2),
    ensures
        out1 == out2,
        post1.mask == post2.mask,
        contents(post1.entities) == contents(post2.entities),
        changes(post1.entities) == changes(post2.entities),
        post1.destroyed == post2.destroyed,
{
    assert forall|idx: int| #![trigger covers(out1, idx)] #![trigger covers(out2, idx)] covers(out1, idx) == covers(out2, idx) by {
        assert(covered(out1).contains(idx) == covered(out2).contains(idx));
    }
    lemma_runs_unique(out1, out2);
}

/// The world's own components have distinct slots.
pub proof fn law_distinct_slots<R: Registry>()
    ensures
        <Entity as Component<R>>::type_slot() != <Destroyed as Component<R>>::type_slot(),
        <Entity as Component<R>>::type_slot() < 128,
        <Destroyed as Component<R>>::type_slot() < 128,
{
}

/// Two components that share a slot share its storage: they hold components
/// for the same entities and mark the same ones changed. Components kept in
/// different storages therefore have different slots.
pub proof fn law_shared_slot_shares_storage<R: Registry, T: Component<R>, U: Component<R>>(w: World<R>)
    requires
        T::type_slot() == U::type_slot(),
    ensures
        (T::stored(w) is Some) == (U::stored(w) is Some),
        contents(T::stored(w)).dom() == contents(U::stored(w)).dom(),
        changes(T::stored(w)) == changes(U::stored(w)),
{
    T::lemma_slot(w, w.mask, None);
    U::lemma_slot(w, w.mask, None);
}

/// Getting the storage of component `T` keeps every other slot of the world:
/// `s` is the storage `get` hands out, the world after it is
/// `T::replaced(World { mask: .., ..pre }, Some(s))`.
pub proof fn law_get_keeps_other_slots<R: Registry, T: Component<R>>(pre: World<R>, s: Storage<T>, j: int)
    requires
        j != T::type_slot(),
    ensures
        ({
            let post = T::replaced(World { mask: pre.mask | (1u128 << T::type_slot()), ..pre }, Some(s));
            &&& slot_present(post, j) == slot_present(pre, j)
            &&& slot_stored(post, j) == slot_stored(pre, j)
            &&& slot_changed(post, j) == slot_changed(pre, j)
            &&& T::type_slot() != 0 ==> post.entities == pre.entities
            &&& T::type_slot() != 1 ==> post.destroyed == pre.destroyed
        }),
{
    let w = World { mask: pre.mask | (1u128 << T::type_slot()), ..pre };
    T::lemma_slot(w, 0, Some(s));
    assert(slot_present(T::replaced(w, Some(s)), j) == slot_present(w, j));
    assert(slot_present(w, j) == slot_present(pre, j));
    assert(slot_stored(w, j) == slot_stored(pre, j));
    assert(slot_changed(w, j) == slot_changed(pre, j));
}

/// Whether a declaration is wrapped in `query! { .. }` changes nothing it
/// means: both forms are well-formed together, read the same query, and
/// select, remove, read and write alike.
pub proof fn law_wrapping_irrelevant<R: Registry>(d: SystemSpec, w: World<R>)
    ensures
        ({
            let d2 = SystemSpec { wrapped: !d.wrapped, ..d };
            &&& system_ok(d2) == system_ok(d)
            &&& render_query(d2) == render_query(d)
            &&& resolvable::<R>(d2) == resolvable::<R>(d)
            &&& selected(w, d2) == selected(w, d)
            &&& forall|j: int| #[trigger] removes::<R>(d2, j) == removes::<R>(d, j)
            &&& forall|j: int| #[trigger] named::<R>(d2, j) == named::<R>(d, j)
            &&& aliased::<R>(d2) == aliased::<R>(d)
            &&& reads_of::<R>(d2) == reads_of::<R>(d)
            &&& writes_of::<R>(d2) == writes_of::<R>(d)
        }),
{
    let d2 = SystemSpec { wrapped: !d.wrapped, ..d };
    assert(selected(w, d2) =~= selected(w, d));
}

/// Swapping two neighbouring clauses of different kinds changes no clause
/// the declaration has of any kind.
proof fn lemma_clause_swap(fs: Seq<FilterSpec>, i: int, k: FilterKind)
    requires
        0 <= i,
        i + 1 < fs.len(),
        fs[i].kind != fs[i + 1].kind,
    ensures
        clause(fs.update(i, fs[i + 1]).update(i + 1, fs[i]), k) == clause(fs, k),
    decreases fs.len(),
{
    let gs = fs.update(i, fs[i + 1]).update(i + 1, fs[i]);
    if i + 2 == fs.len() {
        reveal_with_fuel(clause, 3);
        assert(gs.last() == fs[i]);
        assert(gs.drop_last().last() == fs[i + 1]);
        assert(fs.drop_last().last() == fs[i]);
        assert(gs.drop_last().drop_last() =~= fs.drop_last().drop_last());
    } else {
        assert(gs.last() == fs.last());
        assert(gs.drop_last() =~= fs.drop_last().update(i, fs[i + 1]).update(i + 1, fs[i]));
        lemma_clause_swap(fs.drop_last(), i, k);
    }
}

/// The order of clauses of different kinds does not matter: swapping two
/// neighbouring ones changes nothing the declaration means.
pub proof fn law_clause_order_irrelevant<R: Registry>(d: SystemSpec, i: int, w: World<R>)
    requires
        0 <= i,
        i + 1 < d.filters.len(),
        d.filters[i].kind != d.filters[i + 1].kind,
    ensures
        ({
            let d2 = SystemSpec { filters: d.filters.update(i, d.filters[i + 1]).update(i + 1, d.filters[i]), ..d };
            &&& forall|k: FilterKind| #[trigger] clause(d2.filters, k) == clause(d.filters, k)
            &&& system_ok(d2) == system_ok(d)
            &&& resolvable::<R>(d2) == resolvable::<R>(d)
            &&& selected(w, d2) == selected(w, d)
            &&& forall|j: int| #[trigger] removes::<R>(d2, j) == removes::<R>(d, j)
            &&& forall|j: int| #[trigger] named::<R>(d2, j) == named::<R>(d, j)
            &&& aliased::<R>(d2) == aliased::<R>(d)
            &&& reads_of::<R>(d2) == reads_of::<R>(d)
            &&& writes_of::<R>(d2) == writes_of::<R>(d)
        }),
{
    let fs = d.filters;
    let gs = fs.update(i, fs[i + 1]).update(i + 1, fs[i]);
    let d2 = SystemSpec { filters: gs, ..d };
    assert forall|k: FilterKind| #[trigger] clause(gs, k) == clause(fs, k) by {
        lemma_clause_swap(fs, i, k);
    }
    lemma_clause_swap(fs, i, FilterKind::All);
    lemma_clause_swap(fs, i, FilterKind::Excluded);
    lemma_clause_swap(fs, i, FilterKind::Changed);
    lemma_clause_swap(fs, i, FilterKind::Remove);
    assert forall|j: int| 0 <= j < gs.len() implies #[trigger] gs[j] == fs[if j == i { i + 1 } else if j == i + 1 { i } else { j }] by {}
    assert(system_ok(d2) == system_ok(d)) by {
        if system_ok(d) {
            assert forall|j: int| 0 <= j < gs.len() implies crate::dsl::filter_ok(#[trigger] gs[j]) by {
                assert(gs[j] == fs[if j == i { i + 1 } else if j == i + 1 { i } else { j }]);
            }
        }
        if system_ok(d2) {
            assert forall|j: int| 0 <= j < fs.len() implies crate::dsl::filter_ok(#[trigger] fs[j]) by {
                let jj = if j == i { i + 1 } else if j == i + 1 { i } else { j };
                assert(fs[j] == gs[jj]);
                assert(crate::dsl::filter_ok(d2.filters[jj]));
            }
        }
    }
    assert(resolvable::<R>(d2) == resolvable::<R>(d)) by {
        if resolvable::<R>(d) {
            assert forall|q: int, j: int| 0 <= q < gs.len() && 0 <= j < gs[q].types.len() implies (#[trigger] crate::declared::resolve_ty::<R>(gs[q].types[j])) is Some by {
                assert(gs[q] == fs[if q == i { i + 1 } else if q == i + 1 { i } else { q }]);
            }
        }
        if resolvable::<R>(d2) {
            assert forall|q: int, j: int| 0 <= q < fs.len() && 0 <= j < fs[q].types.len() implies (#[trigger] crate::declared::resolve_ty::<R>(fs[q].types[j])) is Some by {
                assert(fs[q] == gs[if q == i { i + 1 } else if q == i + 1 { i } else { q }]);
            }
        }
    }
    assert(selected(w, d2) =~= selected(w, d));
}

/// `schedule` runs a stage as `run` does: both end where creating and
/// running the stage can end. For a stage that ends alike from one world,
/// scheduling it and running it from the same world give the same runs and
/// alike worlds.
pub proof fn law_schedule_as_run<R: Registry, T: PipelineStage<R>>(
    pre: World<R>,
    run_post: World<R>,
    run_out: Seq<(u32, u32)>,
    sched_post: World<R>,
    sched_out: Seq<(u32, u32)>,
)
    requires
        stage_deterministic::<R, T>(),
        stage_step::<R, T>(pre, run_post, run_out),
        stage_step::<R, T>(pre, sched_post, sched_out),
    ensures
        run_out == sched_out,
        alike(run_post, sched_post),
{
}

/// The destroy system ends alike from one world.
pub proof fn law_destroy_stage_deterministic<R: Registry>()
    ensures
        stage_deterministic::<R, DestroySystem>(),
{
    assert forall|pre: World<R>, post1: World<R>, out1: Seq<(u32, u32)>, post2: World<R>, out2: Seq<(u32, u32)>|
        #[trigger] stage_step::<R, DestroySystem>(pre, post1, out1) && #[trigger] stage_step::<R, DestroySystem>(pre, post2, out2)
        implies out1 == out2 && alike(post1, post2) by {
        let mid1 = choose|mid: World<R>| <DestroySystem as PipelineStage<R>>::prepared(pre, mid)
            && #[trigger] <DestroySystem as PipelineStage<R>>::effect(mid, post1, out1);
        let mid2 = choose|mid: World<R>| <DestroySystem as PipelineStage<R>>::prepared(pre, mid)
            && #[trigger] <DestroySystem as PipelineStage<R>>::effect(mid, post2, out2);
        law_destroy_deterministic(pre, mid1, post1, out1, mid2, post2, out2);
    }
}

/// The entity printing system ends alike from one world.
pub proof fn law_print_stage_deterministic<R: Registry>()
    ensures
        stage_deterministic::<R, PrintEntitySystem>(),
{
    assert forall|pre: World<R>, post1: World<R>, out1: Seq<(u32, u32)>, post2: World<R>, out2: Seq<(u32, u32)>|
        #[trigger] stage_step::<R, PrintEntitySystem>(pre, post1, out1) && #[trigger] stage_step::<R, PrintEntitySystem>(pre, post2, out2)
        implies out1 == out2 && alike(post1, post2) by {
        let mid1 = choose|mid: World<R>| <PrintEntitySystem as PipelineStage<R>>::prepared(pre, mid)
            && #[trigger] <PrintEntitySystem as PipelineStage<R>>::effect(mid, post1, out1);
        let mid2 = choose|mid: World<R>| <PrintEntitySystem as PipelineStage<R>>::prepared(pre, mid)
            && #[trigger] <PrintEntitySystem as PipelineStage<R>>::effect(mid, post2, out2);
        law_print_deterministic(pre, mid1, post1, out1, mid2, post2, out2);
    }
}

/// The tokens `Stage { query! { X } }`.
pub open spec fn wrapped_tokens(stage: Seq<u8>, x: Seq<Tok>) -> Seq<Tok> {
    seq![Tok::Ident(stage), Tok::Open(Delim::Brace), Tok::Ident(word_query()), Tok::Punct(BANG)]
        + render_block(x) + seq![Tok::Close(Delim::Brace)]
}

/// The tokens `Stage { { X } }`.
pub open spec fn bare_tokens(stage: Seq<u8>, x: Seq<Tok>) -> Seq<Tok> {
    seq![Tok::Ident(stage), Tok::Open(Delim::Brace)] + render_block(x) + seq![Tok::Close(Delim::Brace)]
}

/// The `query!` wrapper is optional: for any tokens `X`, a declaration reads
/// `Stage { query! { X } }` exactly when it is wrapped and, unwrapped, reads
/// `Stage { { X } }`; what reads the bare form is never wrapped. With the
/// contract of `parse_system` (it returns the one declaration that reads its
/// tokens, and fails when none does), parsing the two forms gives the same
/// fields but `wrapped`, or fails on both.
pub proof fn law_wrapper_optional(stage: Seq<u8>, x: Seq<Tok>, d: SystemSpec)
    ensures
        (system_ok(d) && render_system(d) == wrapped_tokens(stage, x)) <==> (d.wrapped
            && system_ok(SystemSpec { wrapped: false, ..d })
            && render_system(SystemSpec { wrapped: false, ..d }) == bare_tokens(stage, x)),
        system_ok(d) && render_system(d) == bare_tokens(stage, x) ==> !d.wrapped,
{
    let rq = render_query(d);
    let bare = SystemSpec { wrapped: false, ..d };
    let wr = SystemSpec { wrapped: true, ..d };
    assert(render_system(wr) =~= wrapped_tokens(d.stage, rq));
    assert(render_system(bare) =~= bare_tokens(d.stage, rq));
    if render_system(d) == wrapped_tokens(stage, x) {
        if !d.wrapped {
            assert(render_system(d)[2] == Tok::Open(Delim::Brace));
            assert(wrapped_tokens(stage, x)[2] == Tok::Ident(word_query()));
        }
        assert(rq.len() == x.len());
        assert(rq =~= wrapped_tokens(d.stage, rq).subrange(5, 5 + rq.len() as int));
        assert(x =~= wrapped_tokens(stage, x).subrange(5, 5 + x.len() as int));
        assert(wrapped_tokens(d.stage, rq)[0] == wrapped_tokens(stage, x)[0]);
    }
    if render_system(bare) == bare_tokens(stage, x) {
        assert(rq.len() == x.len());
        assert(rq =~= bare_tokens(d.stage, rq).subrange(3, 3 + rq.len() as int));
        assert(x =~= bare_tokens(stage, x).subrange(3, 3 + x.len() as int));
        assert(bare_tokens(d.stage, rq)[0] == bare_tokens(stage, x)[0]);
    }
    if render_system(d) == bare_tokens(stage, x) && d.wrapped {
        assert(render_system(d)[2] == Tok::Ident(word_query()));
        assert(bare_tokens(stage, x)[2] == Tok::Open(Delim::Brace));
    }
}

/// The tokens of the clauses `a` followed by those of `b`.
proof fn lemma_render_all_concat<A>(a: Seq<A>, b: Seq<A>, f: spec_fn(A) -> Seq<Tok>)
    ensures
        render_all(a + b, f) == render_all(a, f) + render_all(b, f),
    decreases b.len(),
{
    if b.len() == 0 {
        assert(a + b =~= a);
        assert(render_all(a, f) + render_all(b, f) =~= render_all(a, f));
    } else {
        assert((a + b).drop_last() =~= a + b.drop_last());
        assert((a + b).last() == b.last());
        lemma_render_all_concat(a, b.drop_last(), f);
        assert(render_all(a, f) + (render_all(b.drop_last(), f) + f(b.last()))
            =~= render_all(a, f) + render_all(b.drop_last(), f) + f(b.last()));
    }
}

/// Swapping two neighbouring clauses in a declaration swaps their texts in
/// its tokens and leaves the rest: with the contract of `parse_system`, the
/// two token texts parse to declarations whose clauses of each kind agree
/// (`law_clause_order_irrelevant`).
pub proof fn law_clause_swap_tokens(fs: Seq<FilterSpec>, i: int)
    requires
        0 <= i,
        i + 1 < fs.len(),
    ensures
        ({
            let gs = fs.update(i, fs[i + 1]).update(i + 1, fs[i]);
            let head = render_all(fs.subrange(0, i), filter_render());
            let tail = render_all(fs.subrange(i + 2, fs.len() as int), filter_render());
            &&& render_all(fs, filter_render()) == head + render_filter(fs[i]) + render_filter(fs[i + 1]) + tail
            &&& render_all(gs, filter_render()) == head + render_filter(fs[i + 1]) + render_filter(fs[i]) + tail
        }),
{
    let f = filter_render();
    let gs = fs.update(i, fs[i + 1]).update(i + 1, fs[i]);
    let h = fs.subrange(0, i);
    let t = fs.subrange(i + 2, fs.len() as int);
    let p1 = seq![fs[i], fs[i + 1]];
    let p2 = seq![fs[i + 1], fs[i]];
    assert(fs =~= h + p1 + t);
    assert(gs =~= h + p2 + t);
    lemma_render_all_concat(h + p1, t, f);
    lemma_render_all_concat(h, p1, f);
    lemma_render_all_concat(h + p2, t, f);
    lemma_render_all_concat(h, p2, f);
    reveal_with_fuel(render_all, 3);
    assert(p1.drop_last().drop_last() =~= Seq::<FilterSpec>::empty());
    assert(p2.drop_last().drop_last() =~= Seq::<FilterSpec>::empty());
    assert(render_all(p1, f) =~= render_filter(fs[i]) + render_filter(fs[i + 1]));
    assert(render_all(p2, f) =~= render_filter(fs[i + 1]) + render_filter(fs[i]));
    assert(render_all(h, f) + render_all(p1, f) + render_all(t, f) =~= render_all(h, f) + render_filter(fs[i]) + render_filter(fs[i + 1]) + render_all(t, f));
    assert(render_all(h, f) + render_all(p2, f) + render_all(t, f) =~= render_all(h, f) + render_filter(fs[i + 1]) + render_filter(fs[i]) + render_all(t, f));
}

/// The view arguments of `args` whose mutability is `m`, in order.
pub open spec fn views_with(args: Seq<ArgSpec>, m: bool) -> Seq<ArgSpec> {
    args.filter(|a: ArgSpec| a.is_mut == m)
}

/// The slot of the component the type `c` names.
pub open spec fn slot_of<R: Registry>(c: Seq<Tok>) -> u32 {
    resolve_ty::<R>(c).unwrap()
}

/// The views of one mutability give one slot each, in argument order.
proof fn lemma_view_slots<R: Registry>(args: Seq<ArgSpec>, m: bool)
    ensures
        view_slots_where::<R>(args, m).len() == views_with(args, m).len(),
        forall|q: int| 0 <= q < views_with(args, m).len()
            ==> #[trigger] view_slots_where::<R>(args, m)[q] == slot_of::<R>(views_with(args, m)[q].component),
    decreases args.len(),
{
    reveal(Seq::filter);
    if args.len() > 0 {
        lemma_view_slots::<R>(args.drop_last(), m);
        assert(views_with(args, m) == if args.last().is_mut == m {
            views_with(args.drop_last(), m).push(args.last())
        } else {
            views_with(args.drop_last(), m)
        });
    } else {
        assert(views_with(args, m) =~= Seq::<ArgSpec>::empty());
    }
}

/// What a declared system reads: one entry for each type of its `None`
/// clause, then of its `All` clause, then of its `Changed` clause, then one
/// for each shared view argument, each the slot of that type, in order.
/// What it writes: one entry for each mutable view argument, then for each
/// type of its `Remove` clause. (`declared_reads_writes` returns these.)
pub proof fn law_reads_writes_list_every_name<R: Registry>(d: SystemSpec)
    ensures
        ({
            let e = clause(d.filters, FilterKind::Excluded);
            let a = clause(d.filters, FilterKind::All);
            let c = clause(d.filters, FilterKind::Changed);
            let x = clause(d.filters, FilterKind::Remove);
            let sh = views_with(d.args, false);
            let mu = views_with(d.args, true);
            let rd = reads_of::<R>(d);
            let wr = writes_of::<R>(d);
            &&& rd.len() == e.len() + a.len() + c.len() + sh.len()
            &&& forall|j: int| 0 <= j < e.len() ==> rd[j] == slot_of::<R>(#[trigger] e[j])
            &&& forall|j: int| 0 <= j < a.len() ==> rd[e.len() + j] == slot_of::<R>(#[trigger] a[j])
            &&& forall|j: int| 0 <= j < c.len() ==> rd[e.len() + a.len() + j] == slot_of::<R>(#[trigger] c[j])
            &&& forall|j: int| 0 <= j < sh.len() ==> rd[e.len() + a.len() + c.len() + j] == slot_of::<R>(#[trigger] sh[j].component)
            &&& wr.len() == mu.len() + x.len()
            &&& forall|j: int| 0 <= j < mu.len() ==> wr[j] == slot_of::<R>(#[trigger] mu[j].component)
            &&& forall|j: int| 0 <= j < x.len() ==> wr[mu.len() + j] == slot_of::<R>(#[trigger] x[j])
        }),
{
    lemma_view_slots::<R>(d.args, false);
    lemma_view_slots::<R>(d.args, true);
}

/// A component viewed mutably is refused when another argument, before or
/// after it, views the same component, or an `All`, `None` or `Changed`
/// clause names it.
pub proof fn law_aliased_when_shared<R: Registry>(d: SystemSpec, i: int, j: int)
    requires
        0 <= i < d.args.len(),
        d.args[i].is_mut,
        (0 <= j < d.args.len() && j != i && resolve_ty::<R>(d.args[j].component) == resolve_ty::<R>(d.args[i].component))
            || clause_names::<R>(d, FilterKind::All, slot_of::<R>(d.args[i].component) as int)
            || clause_names::<R>(d, FilterKind::Excluded, slot_of::<R>(d.args[i].component) as int)
            || clause_names::<R>(d, FilterKind::Changed, slot_of::<R>(d.args[i].component) as int),
    ensures
        aliased::<R>(d),
{
    assert(d.args[i].is_mut);
}

/// The declaration `d` with view arguments `i` and `i + 1` swapped.
pub open spec fn swap_args(d: SystemSpec, i: int) -> SystemSpec {
    SystemSpec { args: d.args.update(i, d.args[i + 1]).update(i + 1, d.args[i]), ..d }
}

proof fn lemma_aliased_swap<R: Registry>(d: SystemSpec, i: int)
    requires
        0 <= i,
        i + 1 < d.args.len(),
        aliased::<R>(d),
    ensures
        aliased::<R>(swap_args(d, i)),
{
    let d2 = swap_args(d, i);
    let a = choose|a: int| 0 <= a < d.args.len() && #[trigger] d.args[a].is_mut && {
        let s = resolve_ty::<R>(d.args[a].component).unwrap() as int;
        ||| exists|j: int| 0 <= j < d.args.len() && j != a && resolve_ty::<R>(#[trigger] d.args[j].component) == resolve_ty::<R>(d.args[a].component)
        ||| clause_names::<R>(d, FilterKind::All, s)
        ||| clause_names::<R>(d, FilterKind::Excluded, s)
        ||| clause_names::<R>(d, FilterKind::Changed, s)
    };
    let pa = if a == i { i + 1 } else if a == i + 1 { i } else { a };
    assert(d2.args[pa] == d.args[a]);
    assert(d2.args[pa].is_mut);
    if exists|j: int| 0 <= j < d.args.len() && j != a && resolve_ty::<R>(#[trigger] d.args[j].component) == resolve_ty::<R>(d.args[a].component) {
        let j = choose|j: int| 0 <= j < d.args.len() && j != a && resolve_ty::<R>(#[trigger] d.args[j].component) == resolve_ty::<R>(d.args[a].component);
        let pj = if j == i { i + 1 } else if j == i + 1 { i } else { j };
        assert(d2.args[pj] == d.args[j]);
        assert(resolve_ty::<R>(d2.args[pj].component) == resolve_ty::<R>(d2.args[pa].component));
    }
}

/// Whether a declaration is refused as aliasing does not depend on the order
/// of its view arguments: swapping two neighbouring ones changes nothing
/// (so neither does any permutation, which such swaps make up).
pub proof fn law_aliased_order_irrelevant<R: Registry>(d: SystemSpec, i: int)
    requires
        0 <= i,
        i + 1 < d.args.len(),
    ensures
        aliased::<R>(swap_args(d, i)) == aliased::<R>(d),
{
    let d2 = swap_args(d, i);
    assert(swap_args(d2, i).args =~= d.args);
    assert(swap_args(d2, i) == d);
    if aliased::<R>(d) {
        lemma_aliased_swap::<R>(d, i);
    }
    if aliased::<R>(d2) {
        lemma_aliased_swap::<R>(d2, i);
    }
}

/// A path names the world's own component by its last identifier alone:
/// `crate::component::Destroyed` names what `Destroyed` names.
pub proof fn law_resolve_by_last_name(p: Seq<Seq<u8>>)
    requires
        p.len() >= 1,
    ensures
        resolve(p) == resolve(seq![p.last()]),
{
}

/// The stack of open groups after `a` then `b`, where `b` never closes a
/// group it did not open: that after `a`, then that after `b`.
proof fn lemma_stack_append(a: Seq<Tok>, b: Seq<Tok>)
    requires
        delim_stack(a) is Some,
        delim_stack(b) is Some,
    ensures
        delim_stack(a + b) == Some(delim_stack(a).unwrap() + delim_stack(b).unwrap()),
    decreases b.len(),
{
    if b.len() == 0 {
        assert(a + b =~= a);
        assert(delim_stack(a).unwrap() + delim_stack(b).unwrap() =~= delim_stack(a).unwrap());
    } else {
        let b1 = b.drop_last();
        assert((a + b).drop_last() =~= a + b1);
        assert((a + b).last() == b.last());
        assert(delim_stack(b1) is Some);
        lemma_stack_append(a, b1);
        let sa = delim_stack(a).unwrap();
        let sb1 = delim_stack(b1).unwrap();
        match b.last() {
            Tok::Open(d) => {
                assert((sa + sb1).push(d) =~= sa + sb1.push(d));
            },
            Tok::Close(d) => {
                assert((sa + sb1).last() == sb1.last());
                assert((sa + sb1).drop_last() =~= sa + sb1.drop_last());
            },
            _ => {},
        }
    }
}

/// A sequence whose groups close with their own kind opens as many groups
/// as its stack holds.
proof fn lemma_stack_depth(s: Seq<Tok>)
    requires
        delim_stack(s) is Some,
    ensures
        depth(s) == delim_stack(s).unwrap().len(),
    decreases s.len(),
{
    if s.len() > 0 {
        lemma_stack_depth(s.drop_last());
    }
}

/// Groups that close with their own kind are balanced.
proof fn lemma_kinds_nested(s: Seq<Tok>)
    requires
        kinds_match(s),
    ensures
        nested(s),
{
    assert forall|k: int| 0 <= k <= s.len() implies depth(#[trigger] s.subrange(0, k)) >= 0 by {
        if delim_stack(s.subrange(0, k)) is None {
            crate::dsl::lemma_stack_none(s, k);
        }
        lemma_stack_depth(s.subrange(0, k));
    }
    lemma_stack_depth(s);
}

/// Every properly nested token sequence is a body: the empty sequence, any
/// single token that is no delimiter, two bodies one after the other, and a
/// body in a group of any kind, parentheses, brackets or braces.
pub proof fn law_bodies_nest(a: Seq<Tok>, b: Seq<Tok>, t: Tok, d: Delim)
    ensures
        nested(Seq::<Tok>::empty()),
        !(t is Open) && !(t is Close) ==> nested(seq![t]),
        nested(a) && nested(b) ==> nested(a + b),
        nested(a) ==> nested(seq![Tok::Open(d)] + a + seq![Tok::Close(d)]),
{
    assert(delim_stack(Seq::<Tok>::empty()) == Some(Seq::<Delim>::empty()));
    lemma_kinds_nested(Seq::<Tok>::empty());
    if !(t is Open) && !(t is Close) {
        assert(seq![t].drop_last() =~= Seq::<Tok>::empty());
        lemma_kinds_nested(seq![t]);
    }
    if nested(a) && nested(b) {
        lemma_stack_append(a, b);
        assert(Seq::<Delim>::empty() + Seq::<Delim>::empty() =~= Seq::<Delim>::empty());
        lemma_kinds_nested(a + b);
    }
    if nested(a) {
        let o = seq![Tok::Open(d)];
        assert(o.drop_last() =~= Seq::<Tok>::empty());
        assert(delim_stack(o) == Some(seq![d]));
        lemma_stack_append(o, a);
        assert(seq![d] + Seq::<Delim>::empty() =~= seq![d]);
        let w = o + a + seq![Tok::Close(d)];
        assert(w.drop_last() =~= o + a);
        assert(seq![d].drop_last() =~= Seq::<Delim>::empty());
        lemma_kinds_nested(w);
    }
}

} // verus!
