use proc_macro2::{Delimiter, TokenStream, TokenTree};
use rollback::component::{Component, Entity};
use rollback::declared::{declared_reads_writes, run_declared, DeclError};
use rollback::dsl::{parse_system, Delim, Token};
use rollback::query::Presence;
use rollback::registry::{IndexSet, Registry, SpecInt, TokenSeq};
use rollback::storage::Storage;
use rollback::world::World;
use std::str::FromStr;

fn push_stream(ts: TokenStream, out: &mut Vec<Token>) {
    for tt in ts {
        match tt {
            TokenTree::Group(g) => {
                let d = match g.delimiter() {
                    Delimiter::Parenthesis => Some(Delim::Paren),
                    Delimiter::Bracket => Some(Delim::Bracket),
                    Delimiter::Brace => Some(Delim::Brace),
                    Delimiter::None => None,
                };
                if let Some(d) = d {
                    out.push(Token::Open(d));
                }
                push_stream(g.stream(), out);
                if let Some(d) = d {
                    out.push(Token::Close(d));
                }
            }
            TokenTree::Ident(i) => out.push(Token::Ident(i.to_string().into_bytes())),
            TokenTree::Punct(p) => out.push(Token::Punct(p.as_char() as u8)),
            TokenTree::Literal(l) => out.push(Token::Literal(l.to_string().into_bytes())),
        }
    }
}

fn tokens(text: &str) -> Vec<Token> {
    let mut out = Vec::new();
    push_stream(TokenStream::from_str(text).unwrap(), &mut out);
    out
}

#[derive(Debug, PartialEq)]
struct A(u32);
#[derive(Debug, PartialEq)]
struct B(u32);
#[derive(Debug, PartialEq)]
struct C;
#[derive(Debug, PartialEq)]
struct D;

/// The storages of the four components this game adds, in slots 2 to 5.
struct Game {
    a: Option<Storage<A>>,
    b: Option<Storage<B>>,
    c: Option<Storage<C>>,
    d: Option<Storage<D>>,
}

fn clear_runs<T>(s: &mut Storage<T>, spans: &Vec<(u32, u32)>) {
    for &(start, len) in spans {
        for idx in start..start + len {
            s.remove(idx);
        }
    }
}

impl Game {
    fn storage(&self, k: u32) -> &dyn Presence {
        match k {
            2 => self.a.as_ref().unwrap(),
            3 => self.b.as_ref().unwrap(),
            4 => self.c.as_ref().unwrap(),
            _ => self.d.as_ref().unwrap(),
        }
    }
}

/// The specification items exist only for Verus; this registry is not
/// verified, so they are declared and never evaluated.
impl Registry for Game {
    fn valid(&self) -> bool {
        unreachable!()
    }

    fn present(&self, _k: SpecInt) -> bool {
        unreachable!()
    }

    fn stored_at(&self, _k: SpecInt) -> IndexSet {
        unreachable!()
    }

    fn changed_at(&self, _k: SpecInt) -> IndexSet {
        unreachable!()
    }

    fn holds(&self, _k: SpecInt, _o: SpecInt, _m: SpecInt, _i: SpecInt) -> bool {
        unreachable!()
    }

    fn marked(&self, _k: SpecInt, _o: SpecInt, _m: SpecInt, _i: SpecInt) -> bool {
        unreachable!()
    }

    fn known(_k: SpecInt) -> bool {
        unreachable!()
    }

    fn named(_name: TokenSeq) -> Option<u32> {
        unreachable!()
    }

    fn lemma_valid(&self) {}

    fn lemma_known() {}

    fn empty() -> Game {
        Game { a: None, b: None, c: None, d: None }
    }

    fn name_slot(name: &Vec<Token>) -> Option<u32> {
        match name.as_slice() {
            [Token::Ident(n)] if n.as_slice() == b"A" => Some(2),
            [Token::Ident(n)] if n.as_slice() == b"B" => Some(3),
            [Token::Ident(n)] if n.as_slice() == b"C" => Some(4),
            [Token::Ident(n)] if n.as_slice() == b"D" => Some(5),
            _ => None,
        }
    }

    fn create(&mut self, k: u32) {
        match k {
            2 => { self.a.get_or_insert_with(Storage::new); }
            3 => { self.b.get_or_insert_with(Storage::new); }
            4 => { self.c.get_or_insert_with(Storage::new); }
            _ => { self.d.get_or_insert_with(Storage::new); }
        }
    }

    fn remove_runs(&mut self, k: u32, spans: &Vec<(u32, u32)>) {
        match k {
            2 => clear_runs(self.a.as_mut().unwrap(), spans),
            3 => clear_runs(self.b.as_mut().unwrap(), spans),
            4 => clear_runs(self.c.as_mut().unwrap(), spans),
            _ => clear_runs(self.d.as_mut().unwrap(), spans),
        }
    }

    fn outer_presence(&self, k: u32) -> u128 {
        self.storage(k).outer_presence()
    }

    fn middle_presence(&self, k: u32, o: u32) -> u128 {
        self.storage(k).middle_presence(o)
    }

    fn middle_full(&self, k: u32, o: u32) -> u128 {
        self.storage(k).middle_full(o)
    }

    fn inner_presence(&self, k: u32, o: u32, m: u32) -> u128 {
        self.storage(k).inner_presence(o, m)
    }

    fn outer_change(&self, k: u32) -> u128 {
        self.storage(k).outer_change()
    }

    fn middle_change(&self, k: u32, o: u32) -> u128 {
        self.storage(k).middle_change(o)
    }

    fn inner_change(&self, k: u32, o: u32, m: u32) -> u128 {
        self.storage(k).inner_change(o, m)
    }
}

impl Component<Game> for A {
    fn type_slot() -> u32 {
        2
    }

    fn stored(_world: World<Game>) -> Option<Storage<A>> {
        unreachable!()
    }

    fn replaced(_world: World<Game>, _s: Option<Storage<A>>) -> World<Game> {
        unreachable!()
    }

    fn lemma_slot(_world: World<Game>, _mask: u128, _s: Option<Storage<A>>) {}

    fn type_index() -> usize {
        2
    }

    fn slot_mut(world: &mut World<Game>) -> &mut Option<Storage<A>> {
        &mut world.extra.a
    }
}

impl Component<Game> for B {
    fn type_slot() -> u32 {
        3
    }

    fn stored(_world: World<Game>) -> Option<Storage<B>> {
        unreachable!()
    }

    fn replaced(_world: World<Game>, _s: Option<Storage<B>>) -> World<Game> {
        unreachable!()
    }

    fn lemma_slot(_world: World<Game>, _mask: u128, _s: Option<Storage<B>>) {}

    fn type_index() -> usize {
        3
    }

    fn slot_mut(world: &mut World<Game>) -> &mut Option<Storage<B>> {
        &mut world.extra.b
    }
}

impl Component<Game> for C {
    fn type_slot() -> u32 {
        4
    }

    fn stored(_world: World<Game>) -> Option<Storage<C>> {
        unreachable!()
    }

    fn replaced(_world: World<Game>, _s: Option<Storage<C>>) -> World<Game> {
        unreachable!()
    }

    fn lemma_slot(_world: World<Game>, _mask: u128, _s: Option<Storage<C>>) {}

    fn type_index() -> usize {
        4
    }

    fn slot_mut(world: &mut World<Game>) -> &mut Option<Storage<C>> {
        &mut world.extra.c
    }
}

impl Component<Game> for D {
    fn type_slot() -> u32 {
        5
    }

    fn stored(_world: World<Game>) -> Option<Storage<D>> {
        unreachable!()
    }

    fn replaced(_world: World<Game>, _s: Option<Storage<D>>) -> World<Game> {
        unreachable!()
    }

    fn lemma_slot(_world: World<Game>, _mask: u128, _s: Option<Storage<D>>) {}

    fn type_index() -> usize {
        5
    }

    fn slot_mut(world: &mut World<Game>) -> &mut Option<Storage<D>> {
        &mut world.extra.d
    }
}

const SYSTEM: &str = "S { query! { fn f(a: View<A>, b: ViewMut<B>) All=[C] None=[D] { } } }";

/// Entities 0 to 3; A on 0, 1, 2; B on 1, 2, 3; C on 1, 2; D on 2.
fn game_world() -> World<Game> {
    let mut world = World::<Game>::empty();
    for _ in 0..4 {
        world.get::<Entity>().spawn();
    }
    for i in 0..3 {
        world.get::<A>().set(i, A(i));
    }
    for i in 1..4 {
        world.get::<B>().set(i, B(i));
    }
    world.get::<C>().set(1, C);
    world.get::<C>().set(2, C);
    world.get::<D>().set(2, D);
    world
}

#[test]
fn added_components_read_none_all_then_shared_views() {
    let d = parse_system(&tokens(SYSTEM)).unwrap();
    let (reads, writes) = declared_reads_writes::<Game>(&d).unwrap();
    assert_eq!(reads, vec![5, 4, 2]);
    assert_eq!(writes, vec![3]);
    let unknown = parse_system(&tokens("S { query! { fn f(a: View<E>) { } } }")).unwrap();
    assert_eq!(declared_reads_writes::<Game>(&unknown).err(), Some(DeclError::UnknownComponent));
}

#[test]
fn added_components_get_their_own_storages() {
    let mut world = World::<Game>::empty();
    world.get::<A>().set(7, A(70));
    assert_eq!(world.mask, 0b100);
    world.get::<B>().set(7, B(71));
    assert_eq!(world.mask, 0b1100);
    assert_eq!(world.get::<A>().get(7), Some(&A(70)));
    assert_eq!(world.get::<B>().get(7), Some(&B(71)));
    assert_eq!(world.get::<A>().len(), 1);
    assert_eq!(<A as Component<Game>>::type_index(), 2);
    assert_eq!(<D as Component<Game>>::type_index(), 5);
}

#[test]
fn declared_system_selects_over_added_components() {
    let mut world = game_world();
    let d = parse_system(&tokens(SYSTEM)).unwrap();
    assert_eq!(run_declared(&mut world, &d), Ok(vec![(1, 1)]));
    assert_eq!(world.mask, 0b111101);
    let wider = parse_system(&tokens("S { query! { fn f(a: View<A>, b: View<B>) { } } }")).unwrap();
    assert_eq!(run_declared(&mut world, &wider), Ok(vec![(1, 2)]));
}

#[test]
fn declared_removal_clears_added_components() {
    let mut world = game_world();
    let d = parse_system(&tokens("S { query! { fn f(a: View<A>) All=[C] Remove=[B] { } } }")).unwrap();
    assert_eq!(run_declared(&mut world, &d), Ok(vec![(1, 2)]));
    assert_eq!(world.get::<B>().len(), 1);
    assert!(world.get::<B>().contains(3));
    assert_eq!(world.get::<A>().len(), 3);
}

#[test]
fn declared_system_creates_added_storages() {
    let mut world = World::<Game>::empty();
    let d = parse_system(&tokens(SYSTEM)).unwrap();
    assert_eq!(run_declared(&mut world, &d), Ok(vec![]));
    assert_eq!(world.mask, 0b111100);
    assert!(world.extra.a.is_some());
    assert!(world.extra.d.is_some());
}

#[test]
fn exclusive_and_shared_views_of_one_component_are_refused() {
    for text in [
        "S { query! { fn f(a: View<A>, b: ViewMut<A>) { } } }",
        "S { query! { fn f(a: ViewMut<A>, b: ViewMut<A>) { } } }",
        "S { query! { fn f(a: ViewMut<A>) All=[A] { } } }",
        "S { query! { fn f(a: ViewMut<A>) None=[A] { } } }",
        "S { query! { fn f(e: ViewMut<Entity>) Changed=[Entity] { } } }",
    ] {
        let mut world = game_world();
        let d = parse_system(&tokens(text)).unwrap();
        assert_eq!(run_declared(&mut world, &d), Err(DeclError::Aliased), "{}", text);
        assert_eq!(world.get::<A>().len(), 3);
    }
    let mut world = game_world();
    let shared = parse_system(&tokens("S { query! { fn f(a: View<A>, b: View<A>) All=[A] { } } }")).unwrap();
    assert_eq!(run_declared(&mut world, &shared), Ok(vec![(0, 3)]));
    let unknown = parse_system(&tokens("S { query! { fn f(a: ViewMut<E>, b: View<E>) { } } }")).unwrap();
    assert_eq!(run_declared(&mut world, &unknown), Err(DeclError::UnknownComponent));
}
