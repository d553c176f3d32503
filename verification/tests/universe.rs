use arcadia::storage::{LoadError, Reader, Writer};
use arcadia::universe::Universe;

fn put_actor(w: &mut Writer, id: u64, credits: u32) {
    w.u64(id);
    w.u64(0);
    w.u32(credits);
    w.u32(0);
    w.u8(1);
    w.count(0);
    w.u8(1);
    w.count(0);
    w.u32(0);
    w.u8(0);
    w.count(0);
    w.count(0);
}

fn file(timetick: u64, credits: &[(u64, u32)], world_actors: &[u64]) -> Vec<u8> {
    let mut w = Writer::new();
    w.u16(1);
    w.u64(timetick);
    w.u64(77);
    w.u32(10);
    w.count(credits.len());
    for (id, c) in credits {
        put_actor(&mut w, *id, *c);
    }
    w.count(1);
    w.u64(1);
    w.u32(3);
    w.count(world_actors.len());
    for id in world_actors {
        w.u64(*id);
    }
    w.into_bytes()
}

#[test]
fn universe_load_reads_actors_and_worlds() {
    let mut u = Universe::default();
    let mut r = Reader::new(file(4, &[(10, 5), (20, 100)], &[20]));
    assert_eq!(u.load(&mut r), Ok(()));
    assert!(r.at_end());
    assert_eq!(u.timetick, 4);
    assert_eq!(u.lastseqid, 77);
    assert_eq!(u.commune.billing, 10);
    assert_eq!(u.storage.actors.len(), 2);
    assert_eq!(u.commune.actors.len(), 2);
    assert_eq!(u.storage.worlds.len(), 1);
    assert_eq!(u.realm.worlds.len(), 1);
    assert!(u.commune_ids_distinct());
    let i = u.lookup_actor(20);
    assert_eq!(u.storage.actors.get(i).unwrap().body.credits, 100);
}

#[test]
fn universe_save_writes_what_was_loaded() {
    let bytes = file(4, &[(10, 5), (20, 100)], &[20, 10]);
    let mut u = Universe::default();
    let mut r = Reader::new(bytes.clone());
    assert_eq!(u.load(&mut r), Ok(()));
    let mut w = Writer::new();
    u.save(&mut w);
    assert_eq!(w.into_bytes(), bytes);
}

#[test]
fn universe_tick_bills_feeds_and_buries() {
    let mut u = Universe::default();
    let mut r = Reader::new(file(4, &[(10, 5), (20, 100)], &[20]));
    assert_eq!(u.load(&mut r), Ok(()));
    u.tick_commune();
    assert_eq!(u.timetick, 5);
    assert_eq!(u.dispatcher.len(), 1);
    u.settle();
    assert_eq!(u.dispatcher.len(), 0);
    assert_eq!(u.storage.actors.len(), 1);
    assert_eq!(u.commune.actors.len(), 1);
    assert!(u.storage.alookup.get(&10).is_none());
    let i = u.lookup_actor(20);
    assert_eq!(u.storage.actors.get(i).unwrap().body.credits, 93);
    let mut w = Writer::new();
    u.save(&mut w);
    assert_eq!(w.into_bytes(), file(5, &[(20, 93)], &[20]));
}

#[test]
fn universe_drop_actor_takes_it_out() {
    let mut u = Universe::default();
    let mut r = Reader::new(file(0, &[(10, 5), (20, 100)], &[20, 10]));
    assert_eq!(u.load(&mut r), Ok(()));
    u.drop_actor(10);
    assert_eq!(u.storage.actors.len(), 1);
    assert_eq!(u.commune.actors.len(), 1);
    let world = u.storage.worlds.get(u.realm.worlds[0]).unwrap();
    assert_eq!(world.actors.len(), 1);
    assert_eq!(world.actors[0], u.lookup_actor(20));
}

#[test]
fn universe_refuses_other_versions() {
    let mut bytes = file(0, &[], &[]);
    bytes[0] = 2;
    let mut u = Universe::default();
    assert_eq!(u.load(&mut Reader::new(bytes)), Err(LoadError::UnknownVersion));
}

#[test]
fn universe_refuses_unknown_world_actor() {
    let mut u = Universe::default();
    let mut r = Reader::new(file(0, &[(10, 5)], &[30]));
    assert_eq!(u.load(&mut r), Err(LoadError::ActorNotFound));
}

#[test]
fn universe_refuses_truncated_file() {
    let mut bytes = file(0, &[(10, 5)], &[10]);
    bytes.truncate(30);
    let mut u = Universe::default();
    assert_eq!(u.load(&mut Reader::new(bytes)), Err(LoadError::UnexpectedEof));
}

#[test]
fn duplicate_ids_are_detected() {
    let mut u = Universe::default();
    let mut r = Reader::new(file(0, &[(10, 5), (10, 6)], &[]));
    assert_eq!(u.load(&mut r), Ok(()));
    assert!(!u.commune_ids_distinct());
}

#[test]
fn vector_of_actors_round_trip() {
    let mut w = Writer::new();
    w.count(2);
    put_actor(&mut w, 1, 2);
    put_actor(&mut w, 3, 4);
    let bytes = w.into_bytes();
    let slab = Universe::load_vector_1::<arcadia::actors::Actor>(&mut Reader::new(bytes.clone())).unwrap();
    assert_eq!(slab.len(), 2);
    let mut out = Writer::new();
    Universe::save_vector_1(&slab, &mut out);
    assert_eq!(out.into_bytes(), bytes);
}

#[test]
fn move_actors_fills_the_commune() {
    let mut w = Writer::new();
    w.count(2);
    put_actor(&mut w, 1, 2);
    put_actor(&mut w, 3, 4);
    let slab = Universe::load_vector_1::<arcadia::actors::Actor>(&mut Reader::new(w.into_bytes())).unwrap();
    let mut u = Universe::default();
    u.storage.actors = slab;
    Universe::move_actors(&mut u);
    assert_eq!(u.commune.actors.len(), 2);
}

#[test]
fn universe_load_keeps_what_was_read_before_a_failure() {
    let mut u = Universe::default();
    let mut r = Reader::new(file(8, &[(10, 5), (20, 100)], &[30]));
    assert_eq!(u.load(&mut r), Err(LoadError::ActorNotFound));
    assert_eq!(u.timetick, 8);
    assert_eq!(u.lastseqid, 77);
    assert_eq!(u.commune.billing, 10);
    assert_eq!(u.storage.actors.len(), 2);
    assert_eq!(u.commune.actors.len(), 2);
    assert_eq!(u.storage.worlds.len(), 0);
    assert_eq!(u.realm.worlds.len(), 0);
}

#[test]
fn universe_refused_version_leaves_universe_alone() {
    let mut bytes = file(3, &[(10, 5)], &[]);
    bytes[0] = 7;
    let mut u = Universe::default();
    let mut r = Reader::new(bytes);
    assert_eq!(u.load(&mut r), Err(LoadError::UnknownVersion));
    assert_eq!(r.position(), 2);
    assert_eq!(u.timetick, 0);
    assert_eq!(u.storage.actors.len(), 0);
}

fn loaded(credits: &[(u64, u32)]) -> Universe {
    let mut u = Universe::default();
    let mut r = Reader::new(file(0, credits, &[]));
    assert_eq!(u.load(&mut r), Ok(()));
    u
}

#[test]
fn control_step_stores_measures_and_decisions() {
    let mut u = loaded(&[(10, 50)]);
    let i = u.lookup_actor(10);
    u.control_step(i, arcadia::universe::UnitInput::Sensed { bits: 77 });
    u.control_step(i, arcadia::universe::UnitInput::Signal { birth: true });
    let a = u.storage.actors.get(i).unwrap();
    assert_eq!(a.control.values.credits, 77);
    assert!(a.control.values.birth);
    assert_eq!(a.body.credits, 50);
}

#[test]
fn control_step_giveaway_and_spawn() {
    let mut u = loaded(&[(10, 50)]);
    let i = u.lookup_actor(10);
    u.control_step(i, arcadia::universe::UnitInput::Giveaway { drawn: 20 });
    assert_eq!(u.storage.actors.get(i).unwrap().body.reserve, 30);
    let seed = u.take_seed(i).unwrap();
    assert_eq!(seed.credits, 30);
    assert!(u.take_seed(i).is_none());
    u.control_step(i, arcadia::universe::UnitInput::Ready { seed });
    u.control_step(i, arcadia::universe::UnitInput::Spawn);
    let a = u.storage.actors.get(i).unwrap();
    assert_eq!(a.body.credits, 20);
    assert_eq!(a.body.inside.len(), 1);
    assert_eq!(a.control.values.seeds.len(), 0);
    assert_eq!(u.dispatcher.len(), 0);
}

#[test]
fn failed_loads_stop_at_the_failing_record() {
    let mut w = Writer::new();
    w.count(3);
    put_actor(&mut w, 1, 2);
    w.u64(3);
    w.u64(0);
    w.u32(0);
    w.u32(0);
    w.u8(9);
    let bytes = w.into_bytes();
    let mut r = Reader::new(bytes);
    assert!(Universe::load_vector_1::<arcadia::actors::Actor>(&mut r).is_err());
    assert_eq!(r.position(), 4 + 47 + 25);
}
