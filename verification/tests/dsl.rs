use proc_macro2::{Delimiter, TokenStream, TokenTree};
use rollback::component::{Destroyed, Entity};
use rollback::declared::{declared_reads_writes, run_declared, DeclError};
use rollback::registry::Builtins;
use rollback::dsl::{parse_arg_list, parse_block, parse_path, parse_system, Delim, FilterKind, ParseError, Token};
use rollback::world::World;
use std::str::FromStr;

fn push_stream(ts: TokenStream, out: &mut Vec<Token>) {
    for tt in ts {
        match tt {
            TokenTree::Group(g) => {
                let d = match g.delimiter() {
                    Delimiter::Parenthesis => Some(Delim::Paren),
                    Delimiter::Bracket => Some(Delim::Bracket),
                    Delimiter::Brace => Some(Delim::Brace),
                    Delimiter::None => None,
                };
                if let Some(d) = d {
                    out.push(Token::Open(d));
                }
                push_stream(g.stream(), out);
                if let Some(d) = d {
                    out.push(Token::Close(d));
                }
            }
            TokenTree::Ident(i) => out.push(Token::Ident(i.to_string().into_bytes())),
            TokenTree::Punct(p) => out.push(Token::Punct(p.as_char() as u8)),
            TokenTree::Literal(l) => out.push(Token::Literal(l.to_string().into_bytes())),
        }
    }
}

fn tokens(text: &str) -> Vec<Token> {
    let mut out = Vec::new();
    push_stream(TokenStream::from_str(text).unwrap(), &mut out);
    out
}

const DESTROY: &str = "DestroySystem { query! { fn destroy() All=[Entity, Destroyed] Remove=[Entity, Destroyed] { } } }";

const PRINT: &str = "PrintEntitySystem { query! { fn print(e: View<Entity>) Changed=[Entity] { println!(\"{:?}\", *e); } } }";

#[test]
fn parses_a_destroy_declaration() {
    let d = parse_system(&tokens(DESTROY)).unwrap();
    assert_eq!(d.stage, b"DestroySystem".to_vec());
    assert!(d.wrapped);
    assert_eq!(d.func, b"destroy".to_vec());
    assert!(d.args.is_empty());
    assert_eq!(d.filters.len(), 2);
    assert_eq!(d.filters[0].kind, FilterKind::All);
    assert_eq!(d.filters[0].types, vec![tokens("Entity"), tokens("Destroyed")]);
    assert_eq!(d.filters[1].kind, FilterKind::Remove);
    assert!(d.body.is_empty());
}

#[test]
fn parses_views_paths_and_bodies() {
    let d = parse_system(&tokens(PRINT)).unwrap();
    assert_eq!(d.args.len(), 1);
    assert_eq!(d.args[0].name, b"e".to_vec());
    assert!(!d.args[0].is_mut);
    assert_eq!(d.args[0].component, vec![Token::Ident(b"Entity".to_vec())]);
    assert!(d.args[0].rest.is_empty());
    assert_eq!(d.filters[0].kind, FilterKind::Changed);
    assert_eq!(d.body.len(), 9);

    let text = "S { { fn f(a: crate::storage::view::ViewMut<crate::component::Entity>, b: View<Destroyed>,) None=[Destroyed,] { { x } } } }";
    let d = parse_system(&tokens(text)).unwrap();
    assert!(!d.wrapped);
    assert!(d.args_trailing);
    assert_eq!(d.args[0].prefix.len(), 3);
    assert!(d.args[0].is_mut);
    assert_eq!(d.args[0].component, tokens("crate::component::Entity"));
    assert_eq!(d.filters[0].kind, FilterKind::Excluded);
    assert!(d.filters[0].trailing);
    assert_eq!(d.body.len(), 3);
}

#[test]
fn rejects_malformed_declarations() {
    for text in [
        "S { fn f() { } }",
        "S { query! { fn f() Some=[Entity] { } } }",
        "S { query! { fn f() All=[Entity] } }",
        "S { query! { fn f(,) { } } }",
        "S { query! { fn f() All=[,] { } } }",
        "S { query! { fn f() { } } } extra",
        "S { query! { fn f() All=[a:b] { } } }",
        "S { query! { fn f() All=[3] { } } }",
    ] {
        assert_eq!(parse_system(&tokens(text)).err(), Some(ParseError::Malformed), "{}", text);
    }
}

#[test]
fn names_what_was_expected() {
    assert_eq!(parse_system(&tokens("S { other! { fn f() { } } }")).err(), Some(ParseError::ExpectedQuery));
    assert_eq!(parse_system(&tokens("S { foo! { fn f() { } } }")).err(), Some(ParseError::ExpectedQuery));
    assert_eq!(parse_system(&tokens("S { query! { fn f(a: Vec<Entity>) { } } }")).err(), Some(ParseError::ExpectedView));
    for args in ["(a: View)", "(a: &A)", "(a: View<'x>)", "(a: View<>)", "(a: ViewMut<3>)"] {
        assert_eq!(parse_arg_list(&tokens(args), 0).err(), Some(ParseError::ExpectedViewArgs), "{}", args);
    }
    assert_eq!(parse_arg_list(&tokens("(a: Vec<A>)"), 0).err(), Some(ParseError::ExpectedView));
    assert_eq!(parse_arg_list(&tokens("(: View<A>)"), 0).err(), Some(ParseError::Malformed));
}

#[test]
fn view_components_may_be_generic_types() {
    let (args, trailing, e) = parse_arg_list(&tokens("(a: View<Vec<u8>>, b: ViewMut<T, X>, c: View<(A, B)>)"), 0).unwrap();
    assert!(!trailing);
    assert_eq!(e, 31);
    assert_eq!(args.len(), 3);
    assert_eq!(args[0].component, tokens("Vec<u8>"));
    assert!(args[0].rest.is_empty());
    assert!(args[1].is_mut);
    assert_eq!(args[1].component, tokens("T"));
    assert_eq!(args[1].rest, tokens(", X"));
    assert_eq!(args[2].component, tokens("(A, B)"));
    let d = parse_system(&tokens("S { query! { fn f(v: View<Vec<u8>>) { } } }")).unwrap();
    let mut world = World::new();
    assert_eq!(run_declared(&mut world, &d), Err(DeclError::UnknownComponent));
}

#[test]
fn path_and_block_readers() {
    let t = tokens("a::b::c , x");
    let (p, e) = parse_path(&t, 0).unwrap();
    assert_eq!(p, vec![b"a".to_vec(), b"b".to_vec(), b"c".to_vec()]);
    assert_eq!(e, 7);
    assert!(parse_path(&t, 7).is_none());
    let t = tokens("{ a { b } ( c ) } d");
    let (body, e) = parse_block(&t, 0).unwrap();
    assert_eq!(body.len(), 7);
    assert_eq!(e, 9);
    let crossed = vec![
        Token::Open(Delim::Brace),
        Token::Open(Delim::Paren),
        Token::Close(Delim::Bracket),
        Token::Close(Delim::Brace),
    ];
    assert!(parse_block(&crossed, 0).is_none());
}

#[test]
fn clause_lists_hold_types() {
    let d = parse_system(&tokens("S { query! { fn f() All=[Vec<u8>, crate::component::Entity, (A, B),] { } } }")).unwrap();
    assert_eq!(d.filters[0].types, vec![tokens("Vec<u8>"), tokens("crate::component::Entity"), tokens("(A, B)")]);
    assert!(d.filters[0].trailing);
    let mut world = World::new();
    assert_eq!(run_declared(&mut world, &d), Err(DeclError::UnknownComponent));
    let d = parse_system(&tokens("S { query! { fn f() All=[crate::component::Entity] { } } }")).unwrap();
    assert_eq!(run_declared(&mut world, &d), Ok(vec![]));
    assert_eq!(world.mask, 1);
}

#[test]
fn declared_system_creates_the_storages_it_names() {
    let mut world = World::new();
    let d = parse_system(&tokens("S { query! { fn f(e: View<Entity>) None=[Destroyed] { } } }")).unwrap();
    assert_eq!(run_declared(&mut world, &d), Ok(vec![]));
    assert_eq!(world.mask, 0b11);
    assert!(world.entities.is_some());
    assert!(world.destroyed.is_some());
}

#[test]
fn declared_runs_are_maximal_within_leaves() {
    let mut world = World::new();
    for _ in 0..130 {
        world.get::<Entity>().spawn();
    }
    let all = parse_system(&tokens("S { query! { fn f(e: View<Entity>) { } } }")).unwrap();
    assert_eq!(run_declared(&mut world, &all), Ok(vec![(0, 128), (128, 2)]));
    world.get::<Destroyed>().set(1, Destroyed {});
    let none = parse_system(&tokens("S { query! { fn f(e: View<Entity>) None=[Destroyed] { } } }")).unwrap();
    assert_eq!(run_declared(&mut world, &none), Ok(vec![(0, 1), (2, 126), (128, 2)]));
    world.get::<Destroyed>().set(2, Destroyed {});
    let with = parse_system(&tokens("S { query! { fn f(e: View<Entity>) All=[Destroyed] { } } }")).unwrap();
    assert_eq!(run_declared(&mut world, &with), Ok(vec![(1, 2)]));
}

#[test]
fn declared_reads_and_writes() {
    let d = parse_system(&tokens("S { query! { fn f(e: View<Entity>, m: ViewMut<Destroyed>) None=[Destroyed] Changed=[Entity] Remove=[Entity] { } } }")).unwrap();
    let (reads, writes) = declared_reads_writes::<Builtins>(&d).unwrap();
    assert_eq!(reads, vec![1, 0, 0]);
    assert_eq!(writes, vec![1, 0]);
    let bad = parse_system(&tokens("S { query! { fn f(p: View<Position>) { } } }")).unwrap();
    assert_eq!(declared_reads_writes::<Builtins>(&bad).err(), Some(DeclError::UnknownComponent));
}

#[test]
fn declared_destroy_system_matches_the_built_in_one() {
    let mut world = World::new();
    for _ in 0..4 {
        world.get::<Entity>().spawn();
    }
    world.get::<Destroyed>().set(1, Destroyed {});
    world.get::<Destroyed>().set(2, Destroyed {});
    let d = parse_system(&tokens(DESTROY)).unwrap();
    let out = run_declared(&mut world, &d).unwrap();
    assert_eq!(out, vec![(1, 2)]);
    assert_eq!(world.get::<Entity>().len(), 2);
    assert_eq!(world.get::<Destroyed>().len(), 0);
}

#[test]
fn declared_system_reports_changed_entities() {
    let mut world = World::new();
    for _ in 0..3 {
        world.get::<Entity>().spawn();
    }
    let d = parse_system(&tokens(PRINT)).unwrap();
    assert_eq!(run_declared(&mut world, &d), Ok(vec![(0, 3)]));
    world.get::<Entity>().clear_changes();
    assert_eq!(run_declared(&mut world, &d), Ok(vec![]));
    assert_eq!(world.get::<Entity>().len(), 3);
}

#[test]
fn declared_system_with_unknown_component_is_refused() {
    let mut world = World::new();
    world.get::<Entity>().spawn();
    let d = parse_system(&tokens("S { query! { fn f(p: View<Position>) { } } }")).unwrap();
    assert_eq!(run_declared(&mut world, &d), Err(DeclError::UnknownComponent));
    assert_eq!(world.get::<Entity>().len(), 1);
}

#[test]
fn later_clause_of_a_kind_replaces_earlier() {
    let mut world = World::new();
    for _ in 0..3 {
        world.get::<Entity>().spawn();
    }
    world.get::<Destroyed>().set(0, Destroyed {});
    let d = parse_system(&tokens("S { query! { fn f(e: View<Entity>) None=[Entity] None=[Destroyed] { } } }")).unwrap();
    assert_eq!(run_declared(&mut world, &d), Ok(vec![(1, 2)]));
}

#[test]
fn later_arguments_keep_their_reason() {
    assert_eq!(parse_arg_list(&tokens("(a: View<A>, b: Vec<B>)"), 0).err(), Some(ParseError::ExpectedView));
    assert_eq!(parse_arg_list(&tokens("(a: View<A>, b: &B)"), 0).err(), Some(ParseError::ExpectedViewArgs));
    assert_eq!(parse_system(&tokens("S { query! { fn f(a: View<A>, b: View) { } } }")).err(), Some(ParseError::ExpectedViewArgs));
    assert_eq!(parse_system(&tokens("S { { fn f(a: Vec<A>) { } } }")).err(), Some(ParseError::ExpectedView));
    assert_eq!(parse_system(&tokens("S { query! { fn f(a: View<A> b: View<B>) { } } }")).err(), Some(ParseError::Malformed));
}

#[test]
fn view_components_may_be_pointers_qualified_paths_or_never() {
    let (args, _, _) = parse_arg_list(&tokens("(a: View<*const A>, b: View<<A as T>::X>, c: View<!>)"), 0).unwrap();
    assert_eq!(args.len(), 3);
    assert_eq!(args[0].component, tokens("*const A"));
    assert_eq!(args[1].component, tokens("<A as T>::X"));
    assert_eq!(args[2].component, tokens("!"));
    let d = parse_system(&tokens("S { query! { fn f() All=[*mut A, <A as T>::X] { } } }")).unwrap();
    assert_eq!(d.filters[0].types, vec![tokens("*mut A"), tokens("<A as T>::X")]);
}

#[test]
fn the_query_wrapper_is_optional() {
    let inner = "fn f(e: View<Entity>, d: ViewMut<Destroyed>,) All=[Entity] None=[Destroyed] { body }";
    let w = parse_system(&tokens(&format!("S {{ query! {{ {} }} }}", inner))).unwrap();
    let b = parse_system(&tokens(&format!("S {{ {{ {} }} }}", inner))).unwrap();
    assert!(w.wrapped);
    assert!(!b.wrapped);
    assert_eq!(w.stage, b.stage);
    assert_eq!(w.func, b.func);
    assert_eq!(w.args.len(), b.args.len());
    for (x, y) in w.args.iter().zip(b.args.iter()) {
        assert_eq!((&x.name, &x.prefix, x.is_mut, &x.component, &x.rest), (&y.name, &y.prefix, y.is_mut, &y.component, &y.rest));
    }
    assert_eq!(w.args_trailing, b.args_trailing);
    assert_eq!(w.filters.len(), b.filters.len());
    for (x, y) in w.filters.iter().zip(b.filters.iter()) {
        assert_eq!((x.kind, &x.types, x.trailing), (y.kind, &y.types, y.trailing));
    }
    assert_eq!(w.body, b.body);
    let bad = "fn f(a: Vec<A>) { }";
    assert_eq!(parse_system(&tokens(&format!("S {{ query! {{ {} }} }}", bad))).err(), Some(ParseError::ExpectedView));
    assert_eq!(parse_system(&tokens(&format!("S {{ {{ {} }} }}", bad))).err(), Some(ParseError::ExpectedView));
}

#[test]
fn clause_order_does_not_change_what_runs() {
    let mut world = World::new();
    for _ in 0..4 {
        world.get::<Entity>().spawn();
    }
    world.get::<Destroyed>().set(2, Destroyed {});
    let a = parse_system(&tokens("S { query! { fn f() All=[Entity] None=[Destroyed] { } } }")).unwrap();
    let b = parse_system(&tokens("S { query! { fn f() None=[Destroyed] All=[Entity] { } } }")).unwrap();
    assert_eq!(a.filters[0].kind, FilterKind::All);
    assert_eq!(b.filters[0].kind, FilterKind::Excluded);
    assert_eq!(run_declared(&mut world, &a), Ok(vec![(0, 2), (3, 1)]));
    assert_eq!(run_declared(&mut world, &b), Ok(vec![(0, 2), (3, 1)]));
    assert_eq!(declared_reads_writes::<Builtins>(&a), declared_reads_writes::<Builtins>(&b));
}
