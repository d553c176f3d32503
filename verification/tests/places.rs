use arcadia::actors::{Actor, ActorLifecycle};
use arcadia::depot::{Slab, SlabIndex};
use arcadia::dispatcher::Dispatcher;
use arcadia::places::{Container, Realm, World};
use arcadia::storage::{LoadError, Reader, Writer};
use std::collections::HashMap;

fn actor(id: u64, credits: u32) -> Actor {
    let mut a = Actor::default();
    a.body.id = id;
    a.body.credits = credits;
    a
}

#[test]
fn container_insert_and_drop() {
    let mut c = Container::default();
    c.insert(SlabIndex(1));
    c.insert(SlabIndex(2));
    c.insert(SlabIndex(1));
    c.drop_actor(SlabIndex(1));
    assert_eq!(c.actors, vec![SlabIndex(2)]);
    c.drop_actor(SlabIndex(1));
    assert_eq!(c.actors, vec![SlabIndex(2)]);
}

#[test]
fn container_billing_bytes() {
    let mut c = Container::default();
    let mut r = Reader::new(vec![7, 1, 0, 0]);
    assert_eq!(c.load_1(&mut r), Ok(()));
    assert_eq!(c.billing, 263);
    let mut w = Writer::new();
    c.save_1(&mut w);
    assert_eq!(w.into_bytes(), vec![7, 1, 0, 0]);
    let mut r = Reader::new(vec![7]);
    assert_eq!(c.load_1(&mut r), Err(LoadError::UnexpectedEof));
    assert_eq!(c.billing, 263);
}

#[test]
fn container_tick_bills_in_order() {
    let mut actors: Slab<Actor> = Slab::new();
    let a = actors.insert(actor(1, 5));
    let b = actors.insert(actor(2, 100));
    let mut c = Container::default();
    c.billing = 10;
    c.insert(a);
    c.insert(b);
    let mut d: Dispatcher<ActorLifecycle> = Dispatcher::new();
    c.tick(&mut actors, &mut d);
    assert_eq!(actors.get(a).unwrap().body.credits, 0);
    assert_eq!(actors.get(b).unwrap().body.credits, 90);
    assert_eq!(d.len(), 1);
    assert!(matches!(d.get(), ActorLifecycle::Death { id: 1 }));
}

#[test]
fn realm_tick_feeds_world_actors() {
    let mut actors: Slab<Actor> = Slab::new();
    let a = actors.insert(actor(1, 5));
    let b = actors.insert(actor(2, u32::MAX - 1));
    let mut worlds: Slab<World> = Slab::new();
    let w1 = worlds.insert(World { id: 1, production: 3, actors: vec![a, b] });
    let w2 = worlds.insert(World { id: 2, production: 4, actors: vec![a] });
    let mut realm = Realm::default();
    realm.insert(w1);
    realm.insert(w2);
    realm.tick(&mut worlds, &mut actors);
    assert_eq!(actors.get(a).unwrap().body.credits, 12);
    assert_eq!(actors.get(b).unwrap().body.credits, u32::MAX);
}

#[test]
fn realm_drop_actor_leaves_every_world() {
    let mut worlds: Slab<World> = Slab::new();
    let w1 = worlds.insert(World { id: 1, production: 3, actors: vec![SlabIndex(0), SlabIndex(1)] });
    let w2 = worlds.insert(World { id: 2, production: 4, actors: vec![SlabIndex(0)] });
    let mut realm = Realm::default();
    realm.insert(w1);
    realm.insert(w2);
    realm.drop_actor(&mut worlds, SlabIndex(0));
    assert_eq!(worlds.get(w1).unwrap().actors, vec![SlabIndex(1)]);
    assert_eq!(worlds.get(w2).unwrap().actors.len(), 0);
}

fn world_bytes() -> Vec<u8> {
    vec![5, 0, 0, 0, 0, 0, 0, 0, 9, 0, 0, 0, 2, 0, 0, 0, 20, 0, 0, 0, 0, 0, 0, 0, 10, 0, 0, 0, 0, 0, 0, 0]
}

#[test]
fn world_save_names_actors_by_id() {
    let mut actors: Slab<Actor> = Slab::new();
    let a = actors.insert(actor(10, 0));
    let b = actors.insert(actor(20, 0));
    let w = World { id: 5, production: 9, actors: vec![b, a] };
    let mut out = Writer::new();
    w.save_1(&mut out, &actors);
    assert_eq!(out.into_bytes(), world_bytes());
}

#[test]
fn world_load_finds_actors_by_id() {
    let mut lookup: HashMap<u64, SlabIndex> = HashMap::new();
    lookup.insert(10, SlabIndex(3));
    lookup.insert(20, SlabIndex(4));
    let mut r = Reader::new(world_bytes());
    let w = World::load_1(&mut r, &lookup).unwrap();
    assert!(r.at_end());
    assert_eq!((w.id, w.production), (5, 9));
    assert_eq!(w.actors, vec![SlabIndex(4), SlabIndex(3)]);
    lookup.remove(&10);
    let mut r = Reader::new(world_bytes());
    assert!(matches!(World::load_1(&mut r, &lookup), Err(LoadError::ActorNotFound)));
}
