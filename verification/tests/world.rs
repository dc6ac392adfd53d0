use rollback::component::{Component, Destroyed, Entity};
use rollback::query::Query;
use rollback::system::{ChangeCleanupSystem, DestroySystem, PipelineStage, PrintEntitySystem};
use rollback::registry::Builtins;
use rollback::world::{Source, World};

#[test]
fn get_creates_storages_on_first_use() {
    let mut world = World::new();
    assert_eq!(world.mask, 0);
    assert!(world.entities.is_none());
    world.get::<Destroyed>();
    assert_eq!(world.mask, 0b10);
    assert!(world.destroyed.is_some());
    world.get::<Entity>().spawn();
    assert_eq!(world.mask, 0b11);
    assert_eq!(world.get::<Entity>().len(), 1);
    assert_eq!(<Entity as Component<Builtins>>::type_index(), 0);
    assert_eq!(<Destroyed as Component<Builtins>>::type_index(), 1);
}

#[test]
fn destroy_system_reports_and_keeps_untagged() {
    let mut world = World::new();
    for _ in 0..5 {
        world.get::<Entity>().spawn();
    }
    world.get::<Destroyed>().set(1, Destroyed {});
    world.get::<Destroyed>().set(2, Destroyed {});
    world.get::<Destroyed>().set(4, Destroyed {});
    // a tag on an index without an entity stays
    world.get::<Destroyed>().set(9, Destroyed {});
    let out = world.run::<DestroySystem>();
    assert_eq!(out, vec![(1, 2), (4, 1)]);
    assert_eq!(world.get::<Entity>().len(), 2);
    assert!(world.get::<Entity>().contains(0));
    assert!(world.get::<Entity>().contains(3));
    assert_eq!(world.get::<Destroyed>().len(), 1);
    assert!(world.get::<Destroyed>().contains(9));
    // a second run finds nothing
    assert_eq!(world.schedule::<DestroySystem>(), vec![]);
}

#[test]
fn print_system_reports_changed_entities_until_cleanup() {
    let mut world = World::new();
    for _ in 0..3 {
        world.get::<Entity>().spawn();
    }
    assert_eq!(world.run::<PrintEntitySystem>(), vec![(0, 3)]);
    assert_eq!(world.run::<ChangeCleanupSystem<Entity>>(), vec![]);
    assert_eq!(world.run::<PrintEntitySystem>(), vec![]);
    world.get::<Entity>().set(1, Entity { index: 1 });
    assert_eq!(world.run::<PrintEntitySystem>(), vec![(1, 1)]);
}

#[test]
fn stages_declare_what_they_read_and_write() {
    let mut world = World::new();
    let d = DestroySystem::create(&mut world);
    assert_eq!(PipelineStage::<Builtins>::reads(&d), vec![0, 1]);
    assert_eq!(PipelineStage::<Builtins>::writes(&d), vec![0, 1]);
    let p = PrintEntitySystem::create(&mut world);
    assert_eq!(PipelineStage::<Builtins>::reads(&p), vec![0]);
    assert_eq!(PipelineStage::<Builtins>::writes(&p), Vec::<usize>::new());
    let c = ChangeCleanupSystem::<Destroyed>::create(&mut world);
    assert_eq!(PipelineStage::<Builtins>::reads(&c), Vec::<usize>::new());
    assert_eq!(PipelineStage::<Builtins>::writes(&c), vec![1]);
}

#[test]
fn query_filters_combine() {
    let mut world = World::new();
    for _ in 0..200 {
        world.get::<Entity>().spawn();
    }
    for i in [3u32, 4, 5, 130, 131] {
        world.get::<Destroyed>().set(i, Destroyed {});
    }
    let ents = world.entities.as_ref().unwrap();
    let tags = world.destroyed.as_ref().unwrap();

    let with_tag = Query {
        views: vec![Source::<Builtins>::Entities(ents)],
        all: vec![Source::Destroyed(tags)],
        none: Vec::new(),
        changed: Vec::new(),
    };
    assert_eq!(with_tag.run(), vec![(3, 3), (130, 2)]);

    let without_tag = Query {
        views: vec![Source::<Builtins>::Entities(ents)],
        all: Vec::new(),
        none: vec![Source::Destroyed(tags)],
        changed: Vec::new(),
    };
    assert_eq!(without_tag.run(), vec![(0, 3), (6, 122), (128, 2), (132, 68)]);
}

#[test]
fn schedule_runs_a_stage_as_run_does() {
    let build = || {
        let mut world = World::new();
        for _ in 0..6 {
            world.get::<Entity>().spawn();
        }
        world.get::<Destroyed>().set(2, Destroyed {});
        world.get::<Destroyed>().set(3, Destroyed {});
        world
    };
    let mut a = build();
    let mut b = build();
    assert_eq!(a.run::<DestroySystem>(), b.schedule::<DestroySystem>());
    assert_eq!(a.mask, b.mask);
    for i in 0..6 {
        assert_eq!(a.get::<Entity>().contains(i), b.get::<Entity>().contains(i));
        assert_eq!(a.get::<Destroyed>().contains(i), b.get::<Destroyed>().contains(i));
    }
    assert_eq!(a.run::<PrintEntitySystem>(), b.schedule::<PrintEntitySystem>());
}
