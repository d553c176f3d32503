use arcadia::actors::{Actor, ActorInside, ActorLifecycle, Body};
use arcadia::control::{CreditSensor, Unit, Variator};
use arcadia::dispatcher::Dispatcher;
use arcadia::storage::{LoadError, Reader, Writer};

fn body(credits: u32, reserve: u32) -> Body {
    let mut b = Body::default();
    b.id = 4;
    b.home = 9;
    b.credits = credits;
    b.reserve = reserve;
    b
}

#[test]
fn body_available_credits() {
    assert_eq!(body(100, 30).get_credits(), 70);
    assert_eq!(body(10, 30).get_credits(), 0);
}

#[test]
fn body_take_credits_keeps_what_is_left() {
    let mut b = body(100, 30);
    assert_eq!(b.take_credits(50), 20);
    assert_eq!(b.reserve, 50);
    assert_eq!(b.credits, 100);
    assert_eq!(b.get_credits(), 50);
    assert_eq!(b.take_credits(80), 0);
    assert_eq!(b.reserve, 50);
}

#[test]
fn body_birth_needs_more_credits() {
    let mut b = body(100, 0);
    b.birth(40, vec![1, 2]);
    assert_eq!(b.credits, 60);
    assert_eq!(b.inside.len(), 1);
    b.birth(60, vec![3]);
    assert_eq!(b.credits, 60);
    assert_eq!(b.inside.len(), 1);
}

#[test]
fn body_tick_hands_births_to_universe() {
    let mut b = body(100, 0);
    b.birth(40, vec![1, 2]);
    b.inside.put(ActorInside::Empty);
    b.birth(10, vec![3]);
    let mut out: Dispatcher<ActorLifecycle> = Dispatcher::new();
    b.tick(&mut out);
    assert_eq!(b.inside.len(), 0);
    assert_eq!(out.len(), 2);
    match out.get() {
        ActorLifecycle::Make { parent, credits, home, startup } => {
            assert_eq!((parent, credits, home), (4, 40, 9));
            assert_eq!(startup, vec![1, 2]);
        },
        _ => panic!("expected a birth"),
    }
    match out.get() {
        ActorLifecycle::Make { credits, startup, .. } => {
            assert_eq!(credits, 10);
            assert_eq!(startup, vec![3]);
        },
        _ => panic!("expected a birth"),
    }
}

#[test]
fn actor_billing_and_death() {
    let mut a = Actor::default();
    a.body.id = 12;
    a.body.credits = 15;
    let mut d: Dispatcher<ActorLifecycle> = Dispatcher::new();
    a.billing(10, &mut d);
    assert_eq!(a.body.credits, 5);
    assert_eq!(d.len(), 0);
    a.billing(10, &mut d);
    assert_eq!(a.body.credits, 0);
    assert_eq!(d.len(), 1);
    assert!(matches!(d.get(), ActorLifecycle::Death { id: 12 }));
}

#[test]
fn actor_feed_saturates() {
    let mut a = Actor::default();
    a.feed(10);
    assert_eq!(a.body.credits, 10);
    a.feed(u32::MAX);
    assert_eq!(a.body.credits, u32::MAX);
}

#[test]
fn actor_new_builds_control() {
    let startup = vec![3, 1, 0, 1, 0, 0, 0, 3, 2, 0, 1, 0, 0, 0, 2, 7, 0, 0, 0];
    let a = Actor::new(1, 50, 3, startup);
    assert_eq!(a.get_id(), 1);
    assert_eq!(a.body.credits, 50);
    assert_eq!(a.body.home, 3);
    assert_eq!(a.body.reserve, 0);
    assert_eq!(
        a.control.units.units,
        vec![Unit::CreditSensor(CreditSensor { variator: Variator { precision: 7 } })]
    );
}

fn plain_actor_bytes() -> Vec<u8> {
    vec![
        1, 0, 0, 0, 0, 0, 0, 0, 2, 0, 0, 0, 0, 0, 0, 0, 3, 0, 0, 0, 4, 0, 0, 0, 1, 0, 0, 0, 0, 1,
        0, 0, 0, 0, 0, 0, 0, 0, 0, 0, 0, 0, 0, 0, 0, 0, 0,
    ]
}

#[test]
fn actor_save_bytes() {
    let mut a = Actor::default();
    a.body.id = 1;
    a.body.home = 2;
    a.body.credits = 3;
    a.body.reserve = 4;
    let mut w = Writer::new();
    a.save_1(&mut w);
    assert_eq!(w.into_bytes(), plain_actor_bytes());
}

#[test]
fn actor_load_reads_saved_bytes() {
    let mut r = Reader::new(plain_actor_bytes());
    let a = Actor::load_1(&mut r).unwrap();
    assert!(r.at_end());
    assert_eq!((a.body.id, a.body.home, a.body.credits, a.body.reserve), (1, 2, 3, 4));
    assert_eq!(a.control.units.units.len(), 0);
}

#[test]
fn actor_load_truncated() {
    let mut bytes = plain_actor_bytes();
    bytes.pop();
    let mut r = Reader::new(bytes);
    assert!(matches!(Actor::load_1(&mut r), Err(LoadError::UnexpectedEof)));
}
