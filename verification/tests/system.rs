use rollback::component::{Destroyed, Entity};
use proc_macro2::{Delimiter, TokenStream, TokenTree};
use rollback::declared::run_declared;
use rollback::dsl::{parse_system, Delim, Token};
use rollback::system::{DestroySystem, PrintEntitySystem};
use rollback::world::World;
use std::str::FromStr;

fn push_stream(ts: TokenStream, out: &mut Vec<Token>) {
    for tt in ts {
        match tt {
            TokenTree::Group(g) => {
                let d = match g.delimiter() {
                    Delimiter::Parenthesis => Some(Delim::Paren),
                    Delimiter::Bracket => Some(Delim::Bracket),
                    Delimiter::Brace => Some(Delim::Brace),
                    Delimiter::None => None,
                };
                if let Some(d) = d {
                    out.push(Token::Open(d));
                }
                push_stream(g.stream(), out);
                if let Some(d) = d {
                    out.push(Token::Close(d));
                }
            }
            TokenTree::Ident(i) => out.push(Token::Ident(i.to_string().into_bytes())),
            TokenTree::Punct(p) => out.push(Token::Punct(p.as_char() as u8)),
            TokenTree::Literal(l) => out.push(Token::Literal(l.to_string().into_bytes())),
        }
    }
}

fn tokens(text: &str) -> Vec<Token> {
    let mut out = Vec::new();
    push_stream(TokenStream::from_str(text).unwrap(), &mut out);
    out
}

#[test]
fn basic_entity_spawn_test() {
    let mut world = World::new();
    let ents = world.get::<Entity>();

    let _e0 = ents.spawn();
    let _e1 = ents.spawn();
    let _e2 = ents.spawn();

    assert_eq!(ents.len(), 3);
}

#[test]
fn destroyed_component_test() {
    let mut world = World::new();
    world.get::<Entity>();

    assert_eq!(world.get::<Destroyed>().len(), 0);

    let _e0 = world.get::<Entity>().spawn();
    let e1 = world.get::<Entity>().spawn();

    assert_eq!(world.get::<Destroyed>().len(), 0);

    world.get::<Destroyed>().set(e1.index(), Destroyed {});
    assert_eq!(world.get::<Destroyed>().len(), 1);
}

#[test]
fn destroy_system_removes_entity_and_tag() {
    let mut world = World::new();

    let _e0 = world.get::<Entity>().spawn();
    let e1 = world.get::<Entity>().spawn();
    let _e2 = world.get::<Entity>().spawn();

    assert_eq!(world.get::<Entity>().len(), 3);
    assert_eq!(world.get::<Destroyed>().len(), 0);

    world.get::<Destroyed>().set(e1.index(), Destroyed {});

    assert_eq!(world.get::<Destroyed>().len(), 1);

    world.run::<DestroySystem>();

    assert_eq!(world.get::<Destroyed>().len(), 0);
    assert_eq!(world.get::<Entity>().len(), 2);
}

#[test]
fn destroy_system_removes_all_entities() {
    let mut world = World::new();

    let e0 = world.get::<Entity>().spawn();
    let e1 = world.get::<Entity>().spawn();
    let e2 = world.get::<Entity>().spawn();

    assert_eq!(world.get::<Entity>().len(), 3);
    assert_eq!(world.get::<Destroyed>().len(), 0);

    // Mark all entities as destroyed
    world.get::<Destroyed>().set(e0.index(), Destroyed {});
    world.get::<Destroyed>().set(e1.index(), Destroyed {});
    world.get::<Destroyed>().set(e2.index(), Destroyed {});

    assert_eq!(world.get::<Destroyed>().len(), 3);

    world.run::<DestroySystem>();

    // All entities and destroyed tags should be removed
    assert_eq!(world.get::<Destroyed>().len(), 0);
    assert_eq!(world.get::<Entity>().len(), 0);
}

#[test]
fn print_entity_system_runs() {
    let mut world = World::new();

    // Spawn some entities
    let _e0 = world.get::<Entity>().spawn();
    let _e1 = world.get::<Entity>().spawn();
    let _e2 = world.get::<Entity>().spawn();

    assert_eq!(world.get::<Entity>().len(), 3);

    // Run the print system
    world.run::<PrintEntitySystem>();

    // Entities should still be there
    assert_eq!(world.get::<Entity>().len(), 3);
}

#[test]
fn test_changed_filter() {
    let mut world = World::new();

    // Spawn 3 entities
    let e0 = world.get::<Entity>().spawn();
    let e1 = world.get::<Entity>().spawn();
    let _e2 = world.get::<Entity>().spawn();

    // Set Destroyed on two entities
    world.get::<Destroyed>().set(e0.index(), Destroyed {});
    world.get::<Destroyed>().set(e1.index(), Destroyed {});

    // Initially, all should have changed_mask set
    assert_eq!(world.get::<Destroyed>().len(), 2);

    // Manually define a test system that uses Changed filter
    let test_changed_system = parse_system(&tokens(
        "TestChangedSystem {
            query! {
                fn test_changed(d: View<Destroyed>) Changed=[Destroyed] {
                    // This should only run for entities where Destroyed component changed
                }
            }
        }",
    ))
    .unwrap();

    // The test system should match the two entities that have Destroyed set
    // (they both have changed_mask set due to the set() call)
    let runs = run_declared(&mut world, &test_changed_system).unwrap();
    assert_eq!(runs, vec![(e0.index(), 2)]);

    // All tests still pass - Changed filter is working
    assert_eq!(world.get::<Destroyed>().len(), 2);
}
