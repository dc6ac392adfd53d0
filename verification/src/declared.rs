//! Running a declared system against a world: its components are looked up
//! by name (the world's own, then those of its registry), the storages it
//! names are created, the query its arguments and clauses describe is run,
//! and the components of its `Remove` clause are removed from the selected
//! entities.
use vstd::prelude::*;
use crate::dsl::{ArgSpec, Filter, FilterKind, FilterSpec, SystemDecl, SystemSpec, Tok, Token, ViewArg, parse_path, path_ends_at, holds_at, render_path, same_text, toks, words};
use crate::index::{CAPACITY, in_range, ix};
use crate::query::{Presence, Query, all_hold, all_marked, all_valid, lemma_covers_exactly, none_hold, runs_apart_in_leaves, runs_in_leaves};
use crate::mask::{covers, has_bit, runs_ordered, runs_within};
use crate::storage::lemma_view_at;
use crate::registry::{Registry, slot_holds, slot_marked};
use crate::system::{covered, remove_covered};
use crate::world::{Source, World, changes, contents, slot_changed, slot_known, slot_present, slot_stored};

verus! {

/// Why a declared system cannot run.
#[derive(Clone, Copy, Debug, PartialEq, Eq, Structural)]
pub enum DeclError {
    /// A component it names is not one the world stores.
    UnknownComponent,
    /// A component it views mutably it also views otherwise, or names in an
    /// `All`, `None` or `Changed` clause: the two would alias.
    Aliased,
}

/// The name `Entity`.
pub open spec fn word_entity() -> Seq<u8> {
    seq![69u8, 110u8, 116u8, 105u8, 116u8, 121u8]
}

/// The name `Destroyed`.
pub open spec fn word_destroyed() -> Seq<u8> {
    seq![68u8, 101u8, 115u8, 116u8, 114u8, 111u8, 121u8, 101u8, 100u8]
}

/// The world's own component a path names, by its last identifier: slot 0
/// for `Entity`, slot 1 for `Destroyed`.
pub open spec fn resolve(p: Seq<Seq<u8>>) -> Option<u32> {
    if p.len() == 0 {
        None
    } else if p.last() == word_entity() {
        Some(0u32)
    } else if p.last() == word_destroyed() {
        Some(1u32)
    } else {
        None
    }
}

/// The world's own component a type names: a path, by its last identifier.
pub open spec fn builtin_ty(c: Seq<Tok>) -> Option<u32> {
    if exists|p: Seq<Seq<u8>>| p.len() >= 1 && #[trigger] render_path(p) == c {
        resolve(choose|p: Seq<Seq<u8>>| p.len() >= 1 && #[trigger] render_path(p) == c)
    } else {
        None
    }
}

/// The slot of the component a type names: one of the world's own, else
/// the one registry `R` gives the name.
pub open spec fn resolve_ty<R: Registry>(c: Seq<Tok>) -> Option<u32> {
    match builtin_ty(c) {
        Some(k) => Some(k),
        None => R::named(c),
    }
}

/// The types of the last clause of kind `k`: a later clause of a kind
/// replaces an earlier one. Empty when there is none.
pub open spec fn clause(fs: Seq<FilterSpec>, k: FilterKind) -> Seq<Seq<Tok>>
    decreases fs.len(),
{
    if fs.len() == 0 {
        Seq::empty()
    } else if fs.last().kind == k {
        fs.last().types
    } else {
        clause(fs.drop_last(), k)
    }
}

/// Every component the declaration names is one the world can store.
pub open spec fn resolvable<R: Registry>(d: SystemSpec) -> bool {
    &&& forall|i: int| 0 <= i < d.args.len() ==> (#[trigger] resolve_ty::<R>(d.args[i].component)) is Some
    &&& forall|i: int, j: int|
        0 <= i < d.filters.len() && 0 <= j < d.filters[i].types.len() ==> (#[trigger] resolve_ty::<R>(d.filters[i].types[j])) is Some
}

/// Whether entity `idx` has a component in slot `k` of `w`.
pub open spec fn slot_has<R: Registry>(w: World<R>, k: int, idx: int) -> bool {
    slot_stored(w, k).contains(idx)
}

/// Whether the component of entity `idx` in slot `k` of `w` is marked changed.
pub open spec fn slot_marked_at<R: Registry>(w: World<R>, k: int, idx: int) -> bool {
    slot_changed(w, k).contains(idx)
}

/// The entity indices a declaration selects in `w`: those with every
/// component it views and every one of its `All` clause, none of its `None`
/// clause, and a changed one for each of its `Changed` clause.
pub open spec fn selected<R: Registry>(w: World<R>, d: SystemSpec) -> Set<int> {
    Set::new(|idx: int| {
        &&& 0 <= idx < CAPACITY
        &&& forall|i: int| 0 <= i < d.args.len() ==> slot_has(w, resolve_ty::<R>(#[trigger] d.args[i].component).unwrap() as int, idx)
        &&& forall|j: int| 0 <= j < clause(d.filters, FilterKind::All).len()
            ==> slot_has(w, resolve_ty::<R>(#[trigger] clause(d.filters, FilterKind::All)[j]).unwrap() as int, idx)
        &&& forall|j: int| 0 <= j < clause(d.filters, FilterKind::Excluded).len()
            ==> !slot_has(w, resolve_ty::<R>(#[trigger] clause(d.filters, FilterKind::Excluded)[j]).unwrap() as int, idx)
        &&& forall|j: int| 0 <= j < clause(d.filters, FilterKind::Changed).len()
            ==> slot_marked_at(w, resolve_ty::<R>(#[trigger] clause(d.filters, FilterKind::Changed)[j]).unwrap() as int, idx)
    })
}

/// Whether the last clause of kind `k` names the component of slot `s`.
pub open spec fn clause_names<R: Registry>(d: SystemSpec, k: FilterKind, s: int) -> bool {
    exists|j: int| 0 <= j < clause(d.filters, k).len() && #[trigger] resolve_ty::<R>(clause(d.filters, k)[j]) is Some
        && resolve_ty::<R>(clause(d.filters, k)[j]).unwrap() == s
}

/// Whether the `Remove` clause of the declaration names slot `s`.
pub open spec fn removes<R: Registry>(d: SystemSpec, s: int) -> bool {
    clause_names::<R>(d, FilterKind::Remove, s)
}

/// Whether a view argument reads the component of slot `s`.
pub open spec fn views_name<R: Registry>(d: SystemSpec, s: int) -> bool {
    exists|i: int| 0 <= i < d.args.len() && #[trigger] resolve_ty::<R>(d.args[i].component) is Some
        && resolve_ty::<R>(d.args[i].component).unwrap() == s
}

/// Whether the declaration names slot `s`: in a view argument or in the
/// last clause of some kind.
pub open spec fn named<R: Registry>(d: SystemSpec, s: int) -> bool {
    ||| views_name::<R>(d, s)
    ||| clause_names::<R>(d, FilterKind::All, s)
    ||| clause_names::<R>(d, FilterKind::Excluded, s)
    ||| clause_names::<R>(d, FilterKind::Changed, s)
    ||| clause_names::<R>(d, FilterKind::Remove, s)
}

/// Whether a component viewed mutably is also viewed by another argument or
/// named in an `All`, `None` or `Changed` clause.
pub open spec fn aliased<R: Registry>(d: SystemSpec) -> bool {
    exists|i: int| 0 <= i < d.args.len() && #[trigger] d.args[i].is_mut && {
        let s = resolve_ty::<R>(d.args[i].component).unwrap() as int;
        ||| exists|j: int| 0 <= j < d.args.len() && j != i && resolve_ty::<R>(#[trigger] d.args[j].component) == resolve_ty::<R>(d.args[i].component)
        ||| clause_names::<R>(d, FilterKind::All, s)
        ||| clause_names::<R>(d, FilterKind::Excluded, s)
        ||| clause_names::<R>(d, FilterKind::Changed, s)
    }
}

/// The world's own component a path names.
fn resolve_path(p: &Vec<Vec<u8>>) -> (r: Option<u32>)
    ensures
        r == resolve(words(p@)),
{
    if p.len() == 0 {
        return None;
    }
    let last = &p[p.len() - 1];
    let entity = vec![69u8, 110u8, 116u8, 105u8, 116u8, 121u8];
    let destroyed = vec![68u8, 101u8, 115u8, 116u8, 114u8, 111u8, 121u8, 101u8, 100u8];
    assert(entity@ =~= word_entity());
    assert(destroyed@ =~= word_destroyed());
    assert(words(p@).last() == last@);
    if same_text(last, &entity) {
        Some(0)
    } else if same_text(last, &destroyed) {
        Some(1)
    } else {
        None
    }
}

/// The world's own component a type names.
fn builtin_type(c: &Vec<Token>) -> (r: Option<u32>)
    ensures
        r == builtin_ty(toks(c@)),
{
    let ghost cv = toks(c@);
    match parse_path(c, 0) {
        Some((p, e)) => {
            if e == c.len() {
                proof {
                    assert(cv.subrange(0, cv.len() as int) =~= cv);
                    assert(render_path(words(p@)) == cv);
                    assert forall|q: Seq<Seq<u8>>| q.len() >= 1 && #[trigger] render_path(q) == cv implies q == words(p@) by {
                        assert(holds_at(cv, 0, render_path(q)));
                        assert(path_ends_at(cv, render_path(q).len() as int));
                    }
                }
                resolve_path(&p)
            } else {
                proof {
                    assert forall|q: Seq<Seq<u8>>| q.len() >= 1 && #[trigger] render_path(q) == cv implies false by {
                        assert(cv.subrange(0, cv.len() as int) =~= cv);
                        assert(holds_at(cv, 0, render_path(q)));
                        assert(path_ends_at(cv, render_path(q).len() as int));
                    }
                }
                None
            }
        },
        None => {
            proof {
                assert forall|q: Seq<Seq<u8>>| q.len() >= 1 && #[trigger] render_path(q) == cv implies false by {
                    assert(cv.subrange(0, cv.len() as int) =~= cv);
                    assert(holds_at(cv, 0, render_path(q)));
                    assert(path_ends_at(cv, render_path(q).len() as int));
                }
            }
            None
        },
    }
}

/// The slot of the component a type names.
fn resolve_type<R: Registry>(c: &Vec<Token>) -> (r: Option<u32>)
    ensures
        r == resolve_ty::<R>(toks(c@)),
{
    match builtin_type(c) {
        Some(k) => Some(k),
        None => R::name_slot(c),
    }
}

/// The position of the last clause of kind `k`, if any.
fn last_clause(fs: &Vec<Filter>, k: FilterKind) -> (r: Option<usize>)
    ensures
        match r {
            Some(i) => i < fs@.len() && clause(fs@.map_values(|f: Filter| f.spec()), k) == fs@[i as int].spec().types,
            None => clause(fs@.map_values(|f: Filter| f.spec()), k) == Seq::<Seq<Tok>>::empty(),
        },
{
    let ghost all = fs@.map_values(|f: Filter| f.spec());
    let mut i: usize = fs.len();
    assert(all.subrange(0, i as int) =~= all);
    while i > 0
        invariant
            i <= fs@.len(),
            all == fs@.map_values(|f: Filter| f.spec()),
            clause(all, k) == clause(all.subrange(0, i as int), k),
        decreases i,
    {
        let ghost pre = all.subrange(0, i as int);
        assert(pre.drop_last() =~= all.subrange(0, i - 1));
        if fs[i - 1].kind == k {
            return Some(i - 1);
        }
        i = i - 1;
    }
    assert(all.subrange(0, 0) =~= Seq::<FilterSpec>::empty());
    None
}

/// The components a list of paths names, all of which resolve.
fn slots_of<R: Registry>(paths: &Vec<Vec<Token>>) -> (r: Option<Vec<u32>>)
    ensures
        match r {
            Some(v) => v@.len() == paths@.len() && forall|k: int| 0 <= k < v@.len() ==> Some(#[trigger] v@[k]) == resolve_ty::<R>(toks(paths@[k]@)),
            None => exists|k: int| 0 <= k < paths@.len() && (#[trigger] resolve_ty::<R>(toks(paths@[k]@))) is None,
        },
{
    let mut v: Vec<u32> = Vec::new();
    let mut k: usize = 0;
    while k < paths.len()
        invariant
            k <= paths@.len(),
            v@.len() == k,
            forall|q: int| 0 <= q < k ==> Some(#[trigger] v@[q]) == resolve_ty::<R>(toks(paths@[q]@)),
        decreases paths@.len() - k,
    {
        match resolve_type::<R>(&paths[k]) {
            Some(s) => v.push(s),
            None => {
                return None;
            },
        }
        k = k + 1;
    }
    Some(v)
}

/// Whether some slot of the list is `s`.
pub open spec fn names(slots: Seq<u32>, s: int) -> bool {
    exists|k: int| 0 <= k < slots.len() && slots[k] == s
}

/// The slots of the last clause of kind `k`, in order, name exactly the
/// slots the clause names.
proof fn lemma_clause_flags<R: Registry>(d: SystemSpec, k: FilterKind, slots: Seq<u32>)
    requires
        slots.len() == clause(d.filters, k).len(),
        forall|q: int| 0 <= q < slots.len() ==> #[trigger] slots[q] == resolve_ty::<R>(clause(d.filters, k)[q]).unwrap()
            && resolve_ty::<R>(clause(d.filters, k)[q]) is Some,
    ensures
        forall|s: int| #[trigger] names(slots, s) == clause_names::<R>(d, k, s),
{
    let cl = clause(d.filters, k);
    assert forall|s: int| #[trigger] names(slots, s) == clause_names::<R>(d, k, s) by {
        if names(slots, s) {
            let q = choose|q: int| 0 <= q < slots.len() && #[trigger] slots[q] == s;
            assert(slots[q] == resolve_ty::<R>(cl[q]).unwrap());
            assert(resolve_ty::<R>(cl[q]) is Some);
        }
        if clause_names::<R>(d, k, s) {
            let j = choose|j: int| 0 <= j < cl.len() && #[trigger] resolve_ty::<R>(cl[j]) is Some && resolve_ty::<R>(cl[j]).unwrap() == s;
            assert(slots[j] == resolve_ty::<R>(cl[j]).unwrap());
        }
    }
}

/// The slots of the view arguments, in order, name exactly the slots the
/// arguments view.
proof fn lemma_view_flags<R: Registry>(d: SystemSpec, slots: Seq<u32>)
    requires
        slots.len() == d.args.len(),
        forall|a: int| 0 <= a < slots.len() ==> #[trigger] slots[a] == resolve_ty::<R>(d.args[a].component).unwrap()
            && resolve_ty::<R>(d.args[a].component) is Some,
    ensures
        forall|s: int| #[trigger] names(slots, s) == views_name::<R>(d, s),
{
    assert forall|s: int| #[trigger] names(slots, s) == views_name::<R>(d, s) by {
        if names(slots, s) {
            let q = choose|q: int| 0 <= q < slots.len() && #[trigger] slots[q] == s;
            assert(slots[q] == resolve_ty::<R>(d.args[q].component).unwrap());
            assert(resolve_ty::<R>(d.args[q].component) is Some);
        }
        if views_name::<R>(d, s) {
            let a = choose|a: int| 0 <= a < d.args.len() && #[trigger] resolve_ty::<R>(d.args[a].component) is Some && resolve_ty::<R>(d.args[a].component).unwrap() == s;
            assert(slots[a] == resolve_ty::<R>(d.args[a].component).unwrap());
        }
    }
}

/// Whether slot `s` is in the list.
fn contains_slot(v: &Vec<u32>, s: u32) -> (r: bool)
    ensures
        r == names(v@, s as int),
{
    let mut k: usize = 0;
    while k < v.len()
        invariant
            k <= v@.len(),
            forall|q: int| 0 <= q < k ==> v@[q] != s,
        decreases v@.len() - k,
    {
        if v[k] == s {
            return true;
        }
        k = k + 1;
    }
    false
}

/// Gives every slot of the list a storage; every slot keeps what it holds.
fn ensure_slots<R: Registry>(w: &mut World<R>, slots: &Vec<u32>)
    requires
        old(w).wf(),
        forall|q: int| 0 <= q < slots@.len() ==> slot_known::<R>(#[trigger] slots@[q] as int),
    ensures
        final(w).wf(),
        final(w).extra.valid(),
        forall|j: int| #[trigger] slot_present(*final(w), j) == (slot_present(*old(w), j) || names(slots@, j)),
        forall|j: int| #[trigger] slot_stored(*final(w), j) == slot_stored(*old(w), j),
        forall|j: int| #[trigger] slot_changed(*final(w), j) == slot_changed(*old(w), j),
        contents(final(w).entities) == contents(old(w).entities),
        changes(final(w).entities) == changes(old(w).entities),
        contents(final(w).destroyed) == contents(old(w).destroyed),
        changes(final(w).destroyed) == changes(old(w).destroyed),
{
    let ghost w0 = *w;
    let mut q: usize = 0;
    while q < slots.len()
        invariant
            q <= slots@.len(),
            w.wf(),
            forall|p: int| 0 <= p < slots@.len() ==> slot_known::<R>(#[trigger] slots@[p] as int),
            forall|j: int| #[trigger] slot_present(*w, j) == (slot_present(w0, j) || names(slots@.subrange(0, q as int), j)),
            forall|j: int| #[trigger] slot_stored(*w, j) == slot_stored(w0, j),
            forall|j: int| #[trigger] slot_changed(*w, j) == slot_changed(w0, j),
            contents(w.entities) == contents(w0.entities),
            changes(w.entities) == changes(w0.entities),
            contents(w.destroyed) == contents(w0.destroyed),
            changes(w.destroyed) == changes(w0.destroyed),
        decreases slots@.len() - q,
    {
        let ghost pre = *w;
        assert(slot_known::<R>(slots@[q as int] as int));
        w.ensure_slot(slots[q]);
        proof {
            assert forall|j: int| #[trigger] names(slots@.subrange(0, q + 1), j) == (names(slots@.subrange(0, q as int), j) || j == slots@[q as int]) by {
                if names(slots@.subrange(0, q + 1), j) {
                    let k = choose|k: int| 0 <= k < q + 1 && #[trigger] slots@.subrange(0, q + 1)[k] == j;
                    if k < q {
                        assert(slots@.subrange(0, q as int)[k] == j);
                    }
                }
                if names(slots@.subrange(0, q as int), j) {
                    let k = choose|k: int| 0 <= k < q && #[trigger] slots@.subrange(0, q as int)[k] == j;
                    assert(slots@.subrange(0, q + 1)[k] == j);
                }
                if j == slots@[q as int] {
                    assert(slots@.subrange(0, q + 1)[q as int] == j);
                }
            }
        }
        q = q + 1;
    }
    assert(slots@.subrange(0, q as int) =~= slots@);
}

/// Sources for the slots of the list, one for each, in order.
fn sources_for<'a, R: Registry>(w: &'a World<R>, slots: &Vec<u32>) -> (r: Vec<Source<'a, R>>)
    requires
        w.wf(),
        forall|q: int| 0 <= q < slots@.len() ==> slot_present(*w, #[trigger] slots@[q] as int),
    ensures
        r@.len() == slots@.len(),
        all_valid(r@),
        forall|q: int, o: int, m: int, i: int| 0 <= q < r@.len() && in_range(o, m, i) ==>
            #[trigger] r@[q].holds(o, m, i) == slot_has(*w, slots@[q] as int, ix(o, m, i)),
        forall|q: int, o: int, m: int, i: int| 0 <= q < r@.len() && in_range(o, m, i) ==>
            #[trigger] r@[q].marked(o, m, i) == slot_marked_at(*w, slots@[q] as int, ix(o, m, i)),
{
    let mut v: Vec<Source<'a, R>> = Vec::new();
    let mut q: usize = 0;
    while q < slots.len()
        invariant
            q <= slots@.len(),
            v@.len() == q,
            w.wf(),
            forall|p: int| 0 <= p < slots@.len() ==> slot_present(*w, #[trigger] slots@[p] as int),
            all_valid(v@),
            forall|p: int, o: int, m: int, i: int| 0 <= p < q && in_range(o, m, i) ==>
                #[trigger] v@[p].holds(o, m, i) == slot_has(*w, slots@[p] as int, ix(o, m, i)),
            forall|p: int, o: int, m: int, i: int| 0 <= p < q && in_range(o, m, i) ==>
                #[trigger] v@[p].marked(o, m, i) == slot_marked_at(*w, slots@[p] as int, ix(o, m, i)),
        decreases slots@.len() - q,
    {
        let k = slots[q];
        assert(slot_present(*w, k as int));
        let src = if k == 0 {
            Source::Entities(w.entities.as_ref().unwrap())
        } else if k == 1 {
            Source::Destroyed(w.destroyed.as_ref().unwrap())
        } else {
            Source::Extra(&w.extra, k)
        };
        proof {
            w.extra.lemma_valid();
            assert forall|o: int, m: int, i: int| in_range(o, m, i) implies {
                &&& #[trigger] src.holds(o, m, i) == slot_has(*w, k as int, ix(o, m, i))
                &&& src.marked(o, m, i) == slot_marked_at(*w, k as int, ix(o, m, i))
            } by {
                if k == 0 {
                    lemma_view_at(w.entities.unwrap(), o, m, i);
                } else if k == 1 {
                    lemma_view_at(w.destroyed.unwrap(), o, m, i);
                }
            }
        }
        v.push(src);
        proof {
            assert forall|p: int, o: int, m: int, i: int| 0 <= p < q + 1 && in_range(o, m, i) implies
                #[trigger] v@[p].holds(o, m, i) == slot_has(*w, slots@[p] as int, ix(o, m, i)) by {
                if p == q {
                    assert(v@[p] == src);
                }
            }
            assert forall|p: int, o: int, m: int, i: int| 0 <= p < q + 1 && in_range(o, m, i) implies
                #[trigger] v@[p].marked(o, m, i) == slot_marked_at(*w, slots@[p] as int, ix(o, m, i)) by {
                if p == q {
                    assert(v@[p] == src);
                }
            }
            assert forall|p: int| 0 <= p < v@.len() implies #[trigger] v@[p].valid() by {
                if p == q {
                    assert(v@[p] == src);
                }
            }
        }
        q = q + 1;
    }
    v
}

/// Removes from slot `k` of the world the components of every index the
/// runs cover; every other slot keeps what it holds.
fn remove_from_slot<R: Registry>(w: &mut World<R>, k: u32, spans: &Vec<(u32, u32)>)
    requires
        old(w).wf(),
        slot_present(*old(w), k as int),
        runs_within(spans@, 0, CAPACITY as int),
    ensures
        final(w).wf(),
        final(w).mask == old(w).mask,
        forall|j: int| #[trigger] slot_present(*final(w), j) == slot_present(*old(w), j),
        slot_stored(*final(w), k as int) == slot_stored(*old(w), k as int).difference(covered(spans@)),
        slot_changed(*final(w), k as int) == slot_changed(*old(w), k as int).difference(covered(spans@)),
        forall|j: int| j != k ==> #[trigger] slot_stored(*final(w), j) == slot_stored(*old(w), j),
        forall|j: int| j != k ==> #[trigger] slot_changed(*final(w), j) == slot_changed(*old(w), j),
        k == 0 ==> contents(final(w).entities) == contents(old(w).entities).remove_keys(covered(spans@)),
        k != 0 ==> final(w).entities == old(w).entities,
        k == 1 ==> contents(final(w).destroyed) == contents(old(w).destroyed).remove_keys(covered(spans@)),
        k != 1 ==> final(w).destroyed == old(w).destroyed,
{
    if k == 0 {
        if let Some(e) = &mut w.entities {
            remove_covered(e, spans);
        }
        proof {
            assert(contents(w.entities).dom() =~= contents(old(w).entities).dom().difference(covered(spans@)));
        }
    } else if k == 1 {
        if let Some(x) = &mut w.destroyed {
            remove_covered(x, spans);
        }
        proof {
            assert(contents(w.destroyed).dom() =~= contents(old(w).destroyed).dom().difference(covered(spans@)));
        }
    } else {
        w.extra.remove_runs(k, spans);
    }
}

/// Whether every component the declaration names resolves.
fn check_resolvable<R: Registry>(d: &SystemDecl) -> (r: bool)
    ensures
        r == resolvable::<R>(d.spec()),
{
    let ghost ds = d.spec();
    let mut i: usize = 0;
    while i < d.args.len()
        invariant
            ds == d.spec(),
            i <= d.args@.len(),
            forall|q: int| 0 <= q < i ==> (#[trigger] resolve_ty::<R>(ds.args[q].component)) is Some,
        decreases d.args@.len() - i,
    {
        if resolve_type::<R>(&d.args[i].component).is_none() {
            assert(ds.args[i as int] == d.args@[i as int].spec());
            assert(resolve_ty::<R>(ds.args[i as int].component) is None);
            return false;
        }
        i = i + 1;
    }
    let mut f: usize = 0;
    while f < d.filters.len()
        invariant
            ds == d.spec(),
            f <= d.filters@.len(),
            forall|q: int| 0 <= q < ds.args.len() ==> (#[trigger] resolve_ty::<R>(ds.args[q].component)) is Some,
            forall|q: int, j: int| 0 <= q < f && 0 <= j < ds.filters[q].types.len() ==> (#[trigger] resolve_ty::<R>(ds.filters[q].types[j])) is Some,
        decreases d.filters@.len() - f,
    {
        let types = &d.filters[f].types;
        assert(ds.filters[f as int] == d.filters@[f as int].spec());
        let mut j: usize = 0;
        while j < types.len()
            invariant
                ds == d.spec(),
                f < d.filters@.len(),
                types == &d.filters@[f as int].types,
                ds.filters[f as int] == d.filters@[f as int].spec(),
                j <= types@.len(),
                forall|q: int| 0 <= q < ds.args.len() ==> (#[trigger] resolve_ty::<R>(ds.args[q].component)) is Some,
                forall|q: int, k: int| 0 <= q < f && 0 <= k < ds.filters[q].types.len() ==> (#[trigger] resolve_ty::<R>(ds.filters[q].types[k])) is Some,
                forall|k: int| 0 <= k < j ==> (#[trigger] resolve_ty::<R>(ds.filters[f as int].types[k])) is Some,
            decreases types@.len() - j,
        {
            if resolve_type::<R>(&types[j]).is_none() {
                assert(ds.filters[f as int].types[j as int] == toks(types@[j as int]@));
                assert(resolve_ty::<R>(ds.filters[f as int].types[j as int]) is None);
                return false;
            }
            j = j + 1;
        }
        f = f + 1;
    }
    true
}

/// The components the view arguments read.
fn arg_slots<R: Registry>(args: &Vec<ViewArg>) -> (r: Vec<u32>)
    requires
        forall|i: int| 0 <= i < args@.len() ==> (#[trigger] resolve_ty::<R>(args@[i].spec().component)) is Some,
    ensures
        r@.len() == args@.len(),
        forall|k: int| 0 <= k < r@.len() ==> #[trigger] r@[k] == resolve_ty::<R>(args@[k].spec().component).unwrap(),
{
    let mut v: Vec<u32> = Vec::new();
    let mut k: usize = 0;
    while k < args.len()
        invariant
            k <= args@.len(),
            v@.len() == k,
            forall|i: int| 0 <= i < args@.len() ==> (#[trigger] resolve_ty::<R>(args@[i].spec().component)) is Some,
            forall|q: int| 0 <= q < k ==> #[trigger] v@[q] == resolve_ty::<R>(args@[q].spec().component).unwrap(),
        decreases args@.len() - k,
    {
        let s = resolve_type::<R>(&args[k].component);
        assert(resolve_ty::<R>(args@[k as int].spec().component) is Some);
        v.push(s.unwrap());
        k = k + 1;
    }
    v
}

/// The components of the last clause of kind `k`.
fn clause_slots<R: Registry>(fs: &Vec<Filter>, k: FilterKind) -> (r: Vec<u32>)
    requires
        forall|q: int, j: int|
            0 <= q < fs@.len() && 0 <= j < fs@[q].spec().types.len() ==> (#[trigger] resolve_ty::<R>(fs@[q].spec().types[j])) is Some,
    ensures
        r@.len() == clause(fs@.map_values(|f: Filter| f.spec()), k).len(),
        forall|q: int| 0 <= q < r@.len() ==> #[trigger] r@[q] == resolve_ty::<R>(clause(fs@.map_values(|f: Filter| f.spec()), k)[q]).unwrap()
            && resolve_ty::<R>(clause(fs@.map_values(|f: Filter| f.spec()), k)[q]) is Some,
{
    match last_clause(fs, k) {
        Some(i) => {
            let types = &fs[i].types;
            match slots_of::<R>(types) {
                Some(v) => {
                    proof {
                        assert forall|q: int| 0 <= q < v@.len() implies #[trigger] v@[q] == resolve_ty::<R>(clause(fs@.map_values(|f: Filter| f.spec()), k)[q]).unwrap()
                            && resolve_ty::<R>(clause(fs@.map_values(|f: Filter| f.spec()), k)[q]) is Some by {
                            assert(fs@[i as int].spec().types[q] == toks(types@[q]@));
                            assert(resolve_ty::<R>(fs@[i as int].spec().types[q]) is Some);
                        }
                    }
                    v
                },
                None => {
                    proof {
                        let q = choose|q: int| 0 <= q < types@.len() && (#[trigger] resolve_ty::<R>(toks(types@[q]@))) is None;
                        assert(fs@[i as int].spec().types[q] == toks(types@[q]@));
                        assert(resolve_ty::<R>(fs@[i as int].spec().types[q]) is Some);
                    }
                    Vec::new()
                },
            }
        },
        None => Vec::new(),
    }
}

/// Runs a declared system against the world. Creates the storages of the
/// components it names, selects the entities its view arguments and `All`,
/// `None` and `Changed` clauses describe, removes from them the components of
/// its `Remove` clause, and returns the selected indices as runs: in
/// increasing order, each within one leaf block and maximal there. Refuses a
/// declaration that names an unknown component, or one whose mutable view
/// would alias another use of its component.
#[verifier::spinoff_prover]
#[verifier::rlimit(60)]
pub fn run_declared<R: Registry>(world: &mut World<R>, d: &SystemDecl) -> (r: Result<Vec<(u32, u32)>, DeclError>)
    requires
        old(world).wf(),
    ensures
        final(world).wf(),
        (r matches Err(e) && e == DeclError::UnknownComponent) <==> !resolvable::<R>(d.spec()),
        (r matches Err(e) && e == DeclError::Aliased) <==> (resolvable::<R>(d.spec()) && aliased::<R>(d.spec())),
        r is Err ==> *final(world) == *old(world),
        r matches Ok(out) ==> ({
            let sel = selected(*old(world), d.spec());
            &&& covered(out@) == sel
            &&& runs_within(out@, 0, CAPACITY as int)
            &&& runs_ordered(out@)
            &&& runs_in_leaves(out@)
            &&& runs_apart_in_leaves(out@)
            &&& forall|j: int| #[trigger] has_bit(final(world).mask, j) == (has_bit(old(world).mask, j) || named::<R>(d.spec(), j))
            &&& forall|j: int| #[trigger] slot_stored(*final(world), j) == if removes::<R>(d.spec(), j) {
                slot_stored(*old(world), j).difference(sel)
            } else {
                slot_stored(*old(world), j)
            }
            &&& forall|j: int| #[trigger] slot_changed(*final(world), j) == if removes::<R>(d.spec(), j) {
                slot_changed(*old(world), j).difference(sel)
            } else {
                slot_changed(*old(world), j)
            }
            &&& contents(final(world).entities) == if removes::<R>(d.spec(), 0) {
                contents(old(world).entities).remove_keys(sel)
            } else {
                contents(old(world).entities)
            }
            &&& contents(final(world).destroyed) == if removes::<R>(d.spec(), 1) {
                contents(old(world).destroyed).remove_keys(sel)
            } else {
                contents(old(world).destroyed)
            }
        }),
{
    if !check_resolvable::<R>(d) {
        return Err(DeclError::UnknownComponent);
    }
    let ghost w0 = *world;
    let ghost ds = d.spec();
    proof {
        R::lemma_known();
        assert(ds.filters == d.filters@.map_values(|f: Filter| f.spec()));
        assert forall|i: int| 0 <= i < d.args@.len() implies (#[trigger] resolve_ty::<R>(d.args@[i].spec().component)) is Some by {
            assert(ds.args[i] == d.args@[i].spec());
        }
        assert forall|q: int, j: int|
            0 <= q < d.filters@.len() && 0 <= j < d.filters@[q].spec().types.len() implies (#[trigger] resolve_ty::<R>(d.filters@[q].spec().types[j])) is Some by {
            assert(ds.filters[q] == d.filters@[q].spec());
        }
    }
    let view_slots = arg_slots::<R>(&d.args);
    let all_slots = clause_slots::<R>(&d.filters, FilterKind::All);
    let none_slots = clause_slots::<R>(&d.filters, FilterKind::Excluded);
    let changed_slots = clause_slots::<R>(&d.filters, FilterKind::Changed);
    let remove_slots = clause_slots::<R>(&d.filters, FilterKind::Remove);
    proof {
        assert forall|a: int| 0 <= a < view_slots@.len() implies #[trigger] view_slots@[a] == resolve_ty::<R>(ds.args[a].component).unwrap()
            && resolve_ty::<R>(ds.args[a].component) is Some by {
            assert(ds.args[a] == d.args@[a].spec());
        }
        lemma_view_flags::<R>(ds, view_slots@);
        lemma_clause_flags::<R>(ds, FilterKind::Remove, remove_slots@);
        lemma_clause_flags::<R>(ds, FilterKind::All, all_slots@);
        lemma_clause_flags::<R>(ds, FilterKind::Excluded, none_slots@);
        lemma_clause_flags::<R>(ds, FilterKind::Changed, changed_slots@);
    }
    if check_aliased::<R>(d, &view_slots, &all_slots, &none_slots, &changed_slots) {
        return Err(DeclError::Aliased);
    }
    proof {
        assert forall|q: int| 0 <= q < view_slots@.len() implies slot_known::<R>(#[trigger] view_slots@[q] as int) by {
            assert(view_slots@[q] == resolve_ty::<R>(ds.args[q].component).unwrap());
            lemma_resolved_known::<R>(ds.args[q].component);
        }
        assert forall|q: int| 0 <= q < all_slots@.len() implies slot_known::<R>(#[trigger] all_slots@[q] as int) by {
            lemma_names_known::<R>(ds, FilterKind::All, all_slots@, q);
        }
        assert forall|q: int| 0 <= q < none_slots@.len() implies slot_known::<R>(#[trigger] none_slots@[q] as int) by {
            lemma_names_known::<R>(ds, FilterKind::Excluded, none_slots@, q);
        }
        assert forall|q: int| 0 <= q < changed_slots@.len() implies slot_known::<R>(#[trigger] changed_slots@[q] as int) by {
            lemma_names_known::<R>(ds, FilterKind::Changed, changed_slots@, q);
        }
        assert forall|q: int| 0 <= q < remove_slots@.len() implies slot_known::<R>(#[trigger] remove_slots@[q] as int) by {
            lemma_names_known::<R>(ds, FilterKind::Remove, remove_slots@, q);
        }
    }
    ensure_slots(world, &view_slots);
    ensure_slots(world, &all_slots);
    ensure_slots(world, &none_slots);
    ensure_slots(world, &changed_slots);
    ensure_slots(world, &remove_slots);
    let ghost w1 = *world;
    let ghost sel = selected(w0, ds);
    proof {
        assert forall|j: int| #[trigger] slot_present(w1, j) == (slot_present(w0, j) || named::<R>(ds, j)) by {}
        assert forall|j: int| #[trigger] has_bit(w1.mask, j) == (has_bit(w0.mask, j) || named::<R>(ds, j)) by {
            assert(slot_present(w1, j) == (slot_present(w0, j) || named::<R>(ds, j)));
        }
    }
    let spans = {
        let views = sources_for(world, &view_slots);
        let all = sources_for(world, &all_slots);
        let changed = sources_for(world, &changed_slots);
        let none = sources_for(world, &none_slots);
        let q = Query { views, all, none, changed };
        let spans = q.run();
        proof {
            assert forall|o: int, m: int, i: int| in_range(o, m, i) implies (covers(spans@, #[trigger] ix(o, m, i)) <==> sel.contains(ix(o, m, i))) by {
                crate::index::lemma_ix_split(o, m, i);
                let idx = ix(o, m, i);
                let cl_all = clause(ds.filters, FilterKind::All);
                let cl_none = clause(ds.filters, FilterKind::Excluded);
                let cl_changed = clause(ds.filters, FilterKind::Changed);
                assert(all_hold(q.views@, o, m, i) == (forall|a: int| 0 <= a < ds.args.len() ==> slot_has(w0, resolve_ty::<R>(#[trigger] ds.args[a].component).unwrap() as int, idx))) by {
                    if all_hold(q.views@, o, m, i) {
                        assert forall|a: int| 0 <= a < ds.args.len() implies slot_has(w0, resolve_ty::<R>(#[trigger] ds.args[a].component).unwrap() as int, idx) by {
                            assert(q.views@[a].holds(o, m, i));
                            assert(view_slots@[a] == resolve_ty::<R>(ds.args[a].component).unwrap());
                        }
                    }
                    if forall|a: int| 0 <= a < ds.args.len() ==> slot_has(w0, resolve_ty::<R>(#[trigger] ds.args[a].component).unwrap() as int, idx) {
                        assert forall|k: int| 0 <= k < q.views@.len() implies #[trigger] q.views@[k].holds(o, m, i) by {
                            assert(view_slots@[k] == resolve_ty::<R>(ds.args[k].component).unwrap());
                            assert(slot_has(w0, resolve_ty::<R>(ds.args[k].component).unwrap() as int, idx));
                        }
                    }
                }
                assert(all_hold(q.all@, o, m, i) == (forall|j: int| 0 <= j < cl_all.len() ==> slot_has(w0, resolve_ty::<R>(#[trigger] cl_all[j]).unwrap() as int, idx))) by {
                    if all_hold(q.all@, o, m, i) {
                        assert forall|j: int| 0 <= j < cl_all.len() implies slot_has(w0, resolve_ty::<R>(#[trigger] cl_all[j]).unwrap() as int, idx) by {
                            assert(q.all@[j].holds(o, m, i));
                            assert(all_slots@[j] == resolve_ty::<R>(cl_all[j]).unwrap());
                        }
                    }
                    if forall|j: int| 0 <= j < cl_all.len() ==> slot_has(w0, resolve_ty::<R>(#[trigger] cl_all[j]).unwrap() as int, idx) {
                        assert forall|k: int| 0 <= k < q.all@.len() implies #[trigger] q.all@[k].holds(o, m, i) by {
                            assert(all_slots@[k] == resolve_ty::<R>(cl_all[k]).unwrap());
                            assert(slot_has(w0, resolve_ty::<R>(cl_all[k]).unwrap() as int, idx));
                        }
                    }
                }
                assert(none_hold(q.none@, o, m, i) == (forall|j: int| 0 <= j < cl_none.len() ==> !slot_has(w0, resolve_ty::<R>(#[trigger] cl_none[j]).unwrap() as int, idx))) by {
                    if none_hold(q.none@, o, m, i) {
                        assert forall|j: int| 0 <= j < cl_none.len() implies !slot_has(w0, resolve_ty::<R>(#[trigger] cl_none[j]).unwrap() as int, idx) by {
                            assert(!q.none@[j].holds(o, m, i));
                            assert(none_slots@[j] == resolve_ty::<R>(cl_none[j]).unwrap());
                        }
                    }
                    if forall|j: int| 0 <= j < cl_none.len() ==> !slot_has(w0, resolve_ty::<R>(#[trigger] cl_none[j]).unwrap() as int, idx) {
                        assert forall|k: int| 0 <= k < q.none@.len() implies !#[trigger] q.none@[k].holds(o, m, i) by {
                            assert(none_slots@[k] == resolve_ty::<R>(cl_none[k]).unwrap());
                            assert(!slot_has(w0, resolve_ty::<R>(cl_none[k]).unwrap() as int, idx));
                        }
                    }
                }
                assert(all_marked(q.changed@, o, m, i) == (forall|j: int| 0 <= j < cl_changed.len() ==> slot_marked_at(w0, resolve_ty::<R>(#[trigger] cl_changed[j]).unwrap() as int, idx))) by {
                    if all_marked(q.changed@, o, m, i) {
                        assert forall|j: int| 0 <= j < cl_changed.len() implies slot_marked_at(w0, resolve_ty::<R>(#[trigger] cl_changed[j]).unwrap() as int, idx) by {
                            assert(q.changed@[j].marked(o, m, i));
                            assert(changed_slots@[j] == resolve_ty::<R>(cl_changed[j]).unwrap());
                        }
                    }
                    if forall|j: int| 0 <= j < cl_changed.len() ==> slot_marked_at(w0, resolve_ty::<R>(#[trigger] cl_changed[j]).unwrap() as int, idx) {
                        assert forall|k: int| 0 <= k < q.changed@.len() implies #[trigger] q.changed@[k].marked(o, m, i) by {
                            assert(changed_slots@[k] == resolve_ty::<R>(cl_changed[k]).unwrap());
                            assert(slot_marked_at(w0, resolve_ty::<R>(cl_changed[k]).unwrap() as int, idx));
                        }
                    }
                }
                assert(sel.contains(idx) == q.matches(o, m, i));
            }
            assert forall|idx: int| #[trigger] sel.contains(idx) implies 0 <= idx < CAPACITY by {}
            lemma_covers_exactly(spans@, sel);
        }
        spans
    };
    proof {
        assert(covered(spans@) =~= sel);
    }
    let mut q: usize = 0;
    while q < remove_slots.len()
        invariant
            q <= remove_slots@.len(),
            world.wf(),
            world.mask == w1.mask,
            covered(spans@) == sel,
            runs_within(spans@, 0, CAPACITY as int),
            forall|p: int| 0 <= p < remove_slots@.len() ==> slot_present(w1, #[trigger] remove_slots@[p] as int),
            forall|j: int| #[trigger] slot_present(*world, j) == slot_present(w1, j),
            forall|j: int| #[trigger] slot_stored(*world, j) == if names(remove_slots@.subrange(0, q as int), j) {
                slot_stored(w1, j).difference(sel)
            } else {
                slot_stored(w1, j)
            },
            forall|j: int| #[trigger] slot_changed(*world, j) == if names(remove_slots@.subrange(0, q as int), j) {
                slot_changed(w1, j).difference(sel)
            } else {
                slot_changed(w1, j)
            },
            contents(world.entities) == if names(remove_slots@.subrange(0, q as int), 0) {
                contents(w1.entities).remove_keys(sel)
            } else {
                contents(w1.entities)
            },
            contents(world.destroyed) == if names(remove_slots@.subrange(0, q as int), 1) {
                contents(w1.destroyed).remove_keys(sel)
            } else {
                contents(w1.destroyed)
            },
        decreases remove_slots@.len() - q,
    {
        let k = remove_slots[q];
        let ghost pre = *world;
        proof {
            assert(slot_present(w1, k as int));
        }
        remove_from_slot(world, k, &spans);
        proof {
            let sub = remove_slots@.subrange(0, q as int);
            let sub2 = remove_slots@.subrange(0, q + 1);
            assert forall|j: int| #[trigger] names(sub2, j) == (names(sub, j) || j == k) by {
                if names(sub2, j) {
                    let x = choose|x: int| 0 <= x < q + 1 && #[trigger] sub2[x] == j;
                    if x < q {
                        assert(sub[x] == j);
                    }
                }
                if names(sub, j) {
                    let x = choose|x: int| 0 <= x < q && #[trigger] sub[x] == j;
                    assert(sub2[x] == j);
                }
                if j == k {
                    assert(sub2[q as int] == j);
                }
            }
            assert forall|j: int| #[trigger] slot_stored(*world, j) == if names(sub2, j) {
                slot_stored(w1, j).difference(sel)
            } else {
                slot_stored(w1, j)
            } by {
                if j == k {
                    assert(slot_stored(w1, j).difference(sel).difference(sel) =~= slot_stored(w1, j).difference(sel));
                }
            }
            assert forall|j: int| #[trigger] slot_changed(*world, j) == if names(sub2, j) {
                slot_changed(w1, j).difference(sel)
            } else {
                slot_changed(w1, j)
            } by {
                if j == k {
                    assert(slot_changed(w1, j).difference(sel).difference(sel) =~= slot_changed(w1, j).difference(sel));
                }
            }
            assert(contents(w1.entities).remove_keys(sel).remove_keys(sel) =~= contents(w1.entities).remove_keys(sel));
            assert(contents(w1.destroyed).remove_keys(sel).remove_keys(sel) =~= contents(w1.destroyed).remove_keys(sel));
            assert(names(sub2, 0) == (names(sub, 0) || k == 0));
            assert(names(sub2, 1) == (names(sub, 1) || k == 1));
        }
        q = q + 1;
    }
    proof {
        assert(remove_slots@.subrange(0, q as int) =~= remove_slots@);
        assert(contents(w1.entities) == contents(w0.entities));
        assert(contents(w1.destroyed) == contents(w0.destroyed));
    }
    Ok(spans)
}

/// A resolved name names a slot the world can hold.
proof fn lemma_resolved_known<R: Registry>(c: Seq<Tok>)
    requires
        resolve_ty::<R>(c) is Some,
    ensures
        slot_known::<R>(resolve_ty::<R>(c).unwrap() as int),
{
    R::lemma_known();
    if builtin_ty(c) is None {
        assert(R::named(c) is Some);
    }
}

/// A slot of the last clause of a kind is one the world can hold.
proof fn lemma_names_known<R: Registry>(d: SystemSpec, k: FilterKind, slots: Seq<u32>, q: int)
    requires
        forall|s: int| #[trigger] names(slots, s) == clause_names::<R>(d, k, s),
        0 <= q < slots.len(),
    ensures
        slot_known::<R>(slots[q] as int),
{
    assert(names(slots, slots[q] as int));
    let cl = clause(d.filters, k);
    let j = choose|j: int| 0 <= j < cl.len() && #[trigger] resolve_ty::<R>(cl[j]) is Some && resolve_ty::<R>(cl[j]).unwrap() == slots[q];
    lemma_resolved_known::<R>(cl[j]);
}

/// Whether a component viewed mutably is also viewed by another argument or
/// named in an `All`, `None` or `Changed` clause, given the slots of each.
fn check_aliased<R: Registry>(d: &SystemDecl, view_slots: &Vec<u32>, all_slots: &Vec<u32>, none_slots: &Vec<u32>, changed_slots: &Vec<u32>) -> (r: bool)
    requires
        resolvable::<R>(d.spec()),
        view_slots@.len() == d.args@.len(),
        forall|a: int| 0 <= a < view_slots@.len() ==> #[trigger] view_slots@[a] == resolve_ty::<R>(d.spec().args[a].component).unwrap(),
        forall|s: int| #[trigger] names(all_slots@, s) == clause_names::<R>(d.spec(), FilterKind::All, s),
        forall|s: int| #[trigger] names(none_slots@, s) == clause_names::<R>(d.spec(), FilterKind::Excluded, s),
        forall|s: int| #[trigger] names(changed_slots@, s) == clause_names::<R>(d.spec(), FilterKind::Changed, s),
    ensures
        r == aliased::<R>(d.spec()),
{
    let ghost ds = d.spec();
    let n = d.args.len();
    let mut i: usize = 0;
    while i < n
        invariant
            n == d.args@.len(),
            ds == d.spec(),
            resolvable::<R>(ds),
            i <= n,
            view_slots@.len() == n,
            forall|a: int| 0 <= a < view_slots@.len() ==> #[trigger] view_slots@[a] == resolve_ty::<R>(ds.args[a].component).unwrap(),
            forall|s: int| #[trigger] names(all_slots@, s) == clause_names::<R>(ds, FilterKind::All, s),
            forall|s: int| #[trigger] names(none_slots@, s) == clause_names::<R>(ds, FilterKind::Excluded, s),
            forall|s: int| #[trigger] names(changed_slots@, s) == clause_names::<R>(ds, FilterKind::Changed, s),
            forall|a: int| 0 <= a < i && #[trigger] ds.args[a].is_mut ==> {
                let s = resolve_ty::<R>(ds.args[a].component).unwrap() as int;
                &&& !(exists|j: int| 0 <= j < ds.args.len() && j != a && resolve_ty::<R>(#[trigger] ds.args[j].component) == resolve_ty::<R>(ds.args[a].component))
                &&& !clause_names::<R>(ds, FilterKind::All, s)
                &&& !clause_names::<R>(ds, FilterKind::Excluded, s)
                &&& !clause_names::<R>(ds, FilterKind::Changed, s)
            },
        decreases n - i,
    {
        assert(ds.args[i as int] == d.args@[i as int].spec());
        if d.args[i].is_mut {
            let s = view_slots[i];
            assert(resolve_ty::<R>(ds.args[i as int].component) is Some);
            let mut j: usize = 0;
            while j < n
                invariant
                    n == d.args@.len(),
                    ds == d.spec(),
                    resolvable::<R>(ds),
                    i < n,
                    j <= n,
                    view_slots@.len() == n,
                    s == view_slots@[i as int],
                    ds.args[i as int] == d.args@[i as int].spec(),
                    d.args@[i as int].is_mut,
                    forall|a: int| 0 <= a < view_slots@.len() ==> #[trigger] view_slots@[a] == resolve_ty::<R>(ds.args[a].component).unwrap(),
                    forall|b: int| 0 <= b < j && b != i ==> resolve_ty::<R>(#[trigger] ds.args[b].component) != Some(s),
                decreases n - j,
            {
                if j != i && view_slots[j] == s {
                    proof {
                        assert(resolve_ty::<R>(ds.args[j as int].component) is Some);
                        assert(resolve_ty::<R>(ds.args[j as int].component) == Some(s));
                        assert(ds.args[i as int].is_mut);
                    }
                    return true;
                }
                proof {
                    if j != i {
                        assert(resolve_ty::<R>(ds.args[j as int].component) is Some);
                    }
                }
                j = j + 1;
            }
            if contains_slot(all_slots, s) || contains_slot(none_slots, s) || contains_slot(changed_slots, s) {
                proof {
                    assert(ds.args[i as int].is_mut);
                }
                return true;
            }
        }
        i = i + 1;
    }
    proof {
        if aliased::<R>(ds) {
            let a = choose|a: int| 0 <= a < ds.args.len() && #[trigger] ds.args[a].is_mut && {
                let s = resolve_ty::<R>(ds.args[a].component).unwrap() as int;
                ||| exists|j: int| 0 <= j < ds.args.len() && j != a && resolve_ty::<R>(#[trigger] ds.args[j].component) == resolve_ty::<R>(ds.args[a].component)
                ||| clause_names::<R>(ds, FilterKind::All, s)
                ||| clause_names::<R>(ds, FilterKind::Excluded, s)
                ||| clause_names::<R>(ds, FilterKind::Changed, s)
            };
            assert(ds.args[a].is_mut);
        }
    }
    false
}

/// The components that the view arguments with mutability `m` name, in order.
pub open spec fn view_slots_where<R: Registry>(args: Seq<ArgSpec>, m: bool) -> Seq<u32>
    decreases args.len(),
{
    if args.len() == 0 {
        Seq::empty()
    } else {
        view_slots_where::<R>(args.drop_last(), m) + if args.last().is_mut == m {
            seq![resolve_ty::<R>(args.last().component).unwrap()]
        } else {
            Seq::empty()
        }
    }
}

/// The components the last clause of kind `k` names, in order.
pub open spec fn clause_slot_seq<R: Registry>(d: SystemSpec, k: FilterKind) -> Seq<u32> {
    clause(d.filters, k).map_values(|p: Seq<Tok>| resolve_ty::<R>(p).unwrap())
}

/// The components a declared system reads: those of its `None`, `All` and
/// `Changed` clauses, then those it views without changing them.
pub open spec fn reads_of<R: Registry>(d: SystemSpec) -> Seq<u32> {
    clause_slot_seq::<R>(d, FilterKind::Excluded) + clause_slot_seq::<R>(d, FilterKind::All)
        + clause_slot_seq::<R>(d, FilterKind::Changed) + view_slots_where::<R>(d.args, false)
}

/// The components a declared system writes: those it views mutably, then
/// those of its `Remove` clause.
pub open spec fn writes_of<R: Registry>(d: SystemSpec) -> Seq<u32> {
    view_slots_where::<R>(d.args, true) + clause_slot_seq::<R>(d, FilterKind::Remove)
}

/// Appends `xs` to `out`.
fn push_all(out: &mut Vec<u32>, xs: &Vec<u32>)
    ensures
        final(out)@ == old(out)@ + xs@,
{
    let ghost o0 = out@;
    let mut k: usize = 0;
    while k < xs.len()
        invariant
            k <= xs@.len(),
            out@ == o0 + xs@.subrange(0, k as int),
        decreases xs@.len() - k,
    {
        out.push(xs[k]);
        proof {
            assert(xs@.subrange(0, k + 1) =~= xs@.subrange(0, k as int).push(xs@[k as int]));
        }
        k = k + 1;
    }
    assert(xs@.subrange(0, k as int) =~= xs@);
}

/// The components of a clause kind, as the clause lists them.
fn clause_slot_vec<R: Registry>(d: &SystemDecl, k: FilterKind) -> (r: Vec<u32>)
    requires
        resolvable::<R>(d.spec()),
    ensures
        r@ == clause_slot_seq::<R>(d.spec(), k),
{
    let ghost ds = d.spec();
    proof {
        assert forall|q: int, j: int|
            0 <= q < d.filters@.len() && 0 <= j < d.filters@[q].spec().types.len() implies (#[trigger] resolve_ty::<R>(d.filters@[q].spec().types[j])) is Some by {
            assert(ds.filters[q] == d.filters@[q].spec());
        }
    }
    let v = clause_slots::<R>(&d.filters, k);
    proof {
        assert(ds.filters == d.filters@.map_values(|f: Filter| f.spec()));
        assert(v@ =~= clause_slot_seq::<R>(ds, k));
    }
    v
}

/// The components the view arguments with mutability `m` name.
fn view_slot_vec<R: Registry>(d: &SystemDecl, m: bool) -> (r: Vec<u32>)
    requires
        resolvable::<R>(d.spec()),
    ensures
        r@ == view_slots_where::<R>(d.spec().args, m),
{
    let ghost ds = d.spec();
    let mut v: Vec<u32> = Vec::new();
    let mut k: usize = 0;
    assert(ds.args.subrange(0, 0) =~= Seq::<ArgSpec>::empty());
    while k < d.args.len()
        invariant
            ds == d.spec(),
            resolvable::<R>(ds),
            k <= d.args@.len(),
            v@ == view_slots_where::<R>(ds.args.subrange(0, k as int), m),
        decreases d.args@.len() - k,
    {
        let ghost pre = ds.args.subrange(0, k + 1);
        assert(pre.drop_last() =~= ds.args.subrange(0, k as int));
        assert(pre.last() == d.args@[k as int].spec());
        if d.args[k].is_mut == m {
            let s = resolve_type::<R>(&d.args[k].component);
            assert(resolve_ty::<R>(ds.args[k as int].component) is Some);
            v.push(s.unwrap());
        }
        k = k + 1;
    }
    assert(ds.args.subrange(0, k as int) =~= ds.args);
    v
}

/// The components a declared system reads and writes, or the error when it
/// names a component the world does not store.
pub fn declared_reads_writes<R: Registry>(d: &SystemDecl) -> (r: Result<(Vec<u32>, Vec<u32>), DeclError>)
    ensures
        r is Err <==> !resolvable::<R>(d.spec()),
        r matches Ok((rd, wr)) ==> rd@ == reads_of::<R>(d.spec()) && wr@ == writes_of::<R>(d.spec()),
        r matches Err(e) ==> e == DeclError::UnknownComponent,
{
    if !check_resolvable::<R>(d) {
        return Err(DeclError::UnknownComponent);
    }
    let mut reads = clause_slot_vec::<R>(d, FilterKind::Excluded);
    push_all(&mut reads, &clause_slot_vec::<R>(d, FilterKind::All));
    push_all(&mut reads, &clause_slot_vec::<R>(d, FilterKind::Changed));
    push_all(&mut reads, &view_slot_vec::<R>(d, false));
    let mut writes = view_slot_vec::<R>(d, true);
    push_all(&mut writes, &clause_slot_vec::<R>(d, FilterKind::Remove));
    Ok((reads, writes))
}

} // verus!
