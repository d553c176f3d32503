use arcadia::actors::Body;
use arcadia::blueprint::BluePrint;
use arcadia::control::{
    BirthCredit, BirthSignal, ChildMaker, Control, CreditSensor, Sampler, Spawner, Unit, Units,
    Variator,
};
use arcadia::storage::{LoadError, Reader, Writer};
use arcadia::values::{Seed, Value, Values};

fn sensor(p: u32) -> Unit {
    Unit::CreditSensor(CreditSensor { variator: Variator { precision: p } })
}

fn signal(scale: u32, threshold: u32, variation: u32) -> Unit {
    Unit::BirthSignal(BirthSignal { scale, threshold, variation })
}

#[test]
fn unit_types_and_fresh_units() {
    assert_eq!(Unit::for_type(2), Some(sensor(0)));
    assert_eq!(Unit::for_type(3), Some(signal(0, 0, 0)));
    assert_eq!(
        Unit::for_type(4),
        Some(Unit::BirthCredit(BirthCredit { giveaway: Sampler { nominal: 0 } }))
    );
    assert_eq!(
        Unit::for_type(5),
        Some(Unit::ChildMaker(ChildMaker { variator: Variator { precision: 0 } }))
    );
    assert_eq!(Unit::for_type(6), Some(Unit::Spawner(Spawner {})));
    assert_eq!(Unit::for_type(1), None);
    assert_eq!(Unit::for_type(7), None);
    assert_eq!(signal(1, 2, 3).utype(), 3);
    assert_eq!(sensor(1).version(), 1);
}

#[test]
fn units_save_bytes() {
    let units = Units { units: vec![sensor(7), signal(1, 2, 3), Unit::Spawner(Spawner {})] };
    let mut w = Writer::new();
    units.save(&mut w);
    assert_eq!(
        w.into_bytes(),
        vec![
            3, 0, 0, 0, 2, 0, 1, 7, 0, 0, 0, 3, 0, 1, 1, 0, 0, 0, 2, 0, 0, 0, 3, 0, 0, 0, 6, 0, 1
        ]
    );
}

#[test]
fn units_load_reads_saved_bytes() {
    let units = Units { units: vec![sensor(7), signal(1, 2, 3), Unit::Spawner(Spawner {})] };
    let mut w = Writer::new();
    units.save(&mut w);
    let mut back = Units::default();
    let mut r = Reader::new(w.into_bytes());
    assert_eq!(back.load(&mut r), Ok(()));
    assert!(r.at_end());
    assert_eq!(back.units, units.units);
}

#[test]
fn units_load_errors() {
    let mut u = Units::default();
    let mut r = Reader::new(vec![1, 0, 0, 0, 9, 0, 1]);
    assert_eq!(u.load(&mut r), Err(LoadError::UnknownUnitType));
    let mut r = Reader::new(vec![1, 0, 0, 0, 2, 0, 2, 7, 0, 0, 0]);
    assert_eq!(u.load(&mut r), Err(LoadError::UnknownUnitVersion));
    assert_eq!(u.units.len(), 0);
    let mut r = Reader::new(vec![2, 0, 0, 0, 2, 0, 1, 7, 0, 0, 0]);
    assert_eq!(u.load(&mut r), Err(LoadError::UnexpectedEof));
    assert_eq!(u.units, vec![sensor(7)]);
}

#[test]
fn units_load_keeps_units_read_before_a_failure() {
    let mut u = Units::default();
    let mut r = Reader::new(vec![2, 0, 0, 0, 6, 0, 1, 6, 0, 2]);
    assert_eq!(u.load(&mut r), Err(LoadError::UnknownUnitVersion));
    assert_eq!(u.units, vec![Unit::Spawner(Spawner {})]);
}

#[test]
fn control_load_keeps_what_was_read_before_a_failure() {
    let mut c = Control::default();
    let bytes = vec![1, 1, 0, 0, 0, 2, 0, 1, 7, 0, 0, 0, 1, 0, 0, 0, 0, 9, 0, 0, 0, 1];
    let mut r = Reader::new(bytes);
    assert_eq!(c.load_1(&mut r), Err(LoadError::UnexpectedEof));
    assert_eq!(c.units.units, vec![sensor(7)]);
    assert_eq!(c.values.credits, 9);
    assert!(c.values.birth);
    let mut r = Reader::new(vec![2, 0, 0, 0, 0]);
    assert_eq!(c.load_1(&mut r), Err(LoadError::UnknownControlVersion));
    assert_eq!(r.position(), 1);
    assert_eq!(c.units.units, vec![sensor(7)]);
}

#[test]
fn units_new_builds_from_blueprint() {
    let bp = BluePrint::new(
        1,
        vec![
            BluePrint::new(2, vec![BluePrint::from(7u32)]),
            BluePrint::new(
                3,
                vec![
                    BluePrint::FValue { value: 11 },
                    BluePrint::FValue { value: 12 },
                    BluePrint::from(13u32),
                ],
            ),
            BluePrint::new(6, vec![]),
        ],
    );
    let mut u = Units::default();
    assert_eq!(u.new(&bp), Ok(()));
    assert_eq!(u.units, vec![sensor(7), signal(0, 12, 13), Unit::Spawner(Spawner {})]);
}

#[test]
fn units_new_errors() {
    let mut u = Units::default();
    assert_eq!(u.new(&BluePrint::from(1u32)), Err(LoadError::CollectionRequired));
    let bp = BluePrint::new(1, vec![BluePrint::new(2, vec![BluePrint::from(7u32)]), BluePrint::from(3u32)]);
    assert_eq!(u.new(&bp), Err(LoadError::CollectionRequired));
    assert_eq!(u.units, vec![sensor(7)]);
    let mut u = Units::default();
    let bp = BluePrint::new(1, vec![BluePrint::new(9, vec![])]);
    assert_eq!(u.new(&bp), Err(LoadError::UnknownUnitType));
    let bp = BluePrint::new(1, vec![BluePrint::new(2, vec![BluePrint::FValue { value: 1 }])]);
    assert_eq!(u.new(&bp), Err(LoadError::U32Required));
    let bp = BluePrint::new(
        1,
        vec![BluePrint::new(3, vec![BluePrint::from(1u32), BluePrint::from(2u32)])],
    );
    assert_eq!(u.new(&bp), Err(LoadError::F32Required));
    assert_eq!(u.units.len(), 0);
}

#[test]
fn blueprints_rebuild_units() {
    let units = Units {
        units: vec![
            sensor(7),
            signal(5, 6, 8),
            Unit::BirthCredit(BirthCredit { giveaway: Sampler { nominal: 30 } }),
            Unit::ChildMaker(ChildMaker { variator: Variator { precision: 4 } }),
            Unit::Spawner(Spawner {}),
        ],
    };
    let bp = units.blueprints();
    assert_eq!(bp.get_unit(), Ok(1));
    let mut rebuilt = Units::default();
    assert_eq!(rebuilt.new(&bp), Ok(()));
    assert_eq!(
        rebuilt.units,
        vec![
            sensor(7),
            signal(0, 6, 8),
            Unit::BirthCredit(BirthCredit { giveaway: Sampler { nominal: 30 } }),
            Unit::ChildMaker(ChildMaker { variator: Variator { precision: 4 } }),
            Unit::Spawner(Spawner {}),
        ]
    );
}

#[test]
fn unit_blueprint_parameters() {
    let bp = signal(5, 6, 8).blueprints();
    assert_eq!(bp.get_unit(), Ok(3));
    assert_eq!(bp.get_f32(0), Ok(5));
    assert_eq!(bp.get_f32(1), Ok(6));
    assert_eq!(bp.get_u32(2), Ok(8));
    let mut s = signal(5, 0, 0);
    assert_eq!(s.make(&bp), Ok(()));
    assert_eq!(s, signal(5, 6, 8));
}

#[test]
fn control_round_trip_and_version() {
    let mut c = Control::default();
    c.units.units.push(sensor(3));
    c.values.values.push(Value::FValue { value: 42 });
    c.values.credits = 9;
    c.values.birth = true;
    c.values.seeds.push_back(Seed::new(5));
    let mut w = Writer::new();
    c.save_1(&mut w);
    let bytes = w.into_bytes();
    assert_eq!(bytes[0], 1);
    let mut back = Control::default();
    let mut r = Reader::new(bytes.clone());
    assert_eq!(back.load_1(&mut r), Ok(()));
    assert!(r.at_end());
    assert_eq!(back.units.units, vec![sensor(3)]);
    assert_eq!(back.values.values, vec![Value::FValue { value: 42 }]);
    assert_eq!(back.values.credits, 9);
    assert!(back.values.birth);
    assert_eq!(back.values.seeds.len(), 1);
    assert_eq!(back.values.seeds[0].credits, 5);
    let mut newer = bytes.clone();
    newer[0] = 2;
    let mut r = Reader::new(newer);
    assert_eq!(Control::default().load_1(&mut r), Err(LoadError::UnknownControlVersion));
}

#[test]
fn control_new_builds_units() {
    let mut c = Control::default();
    c.new(&BluePrint::new(1, vec![BluePrint::new(6, vec![])]));
    assert_eq!(c.units.units, vec![Unit::Spawner(Spawner {})]);
}

#[test]
fn values_bytes_and_errors() {
    let mut v = Values::default();
    v.values.push(Value::FValue { value: 0x3f80_0000 });
    v.credits = 2;
    v.birthcredits.push_back(Seed::new(7));
    let mut w = Writer::new();
    v.save(&mut w);
    assert_eq!(
        w.into_bytes(),
        vec![
            1, 1, 0, 0, 0, 1, 0, 0, 0x80, 0x3f, 2, 0, 0, 0, 0, 1, 0, 0, 0, 7, 0, 0, 0, 3, 1, 0, 0,
            0, 0, 0, 0, 0, 0, 0
        ]
    );
    let mut r = Reader::new(vec![1, 1, 0, 0, 0, 2, 0, 0, 0, 0]);
    assert_eq!(Values::default().load(&mut r), Err(LoadError::UnknownValue));
    let mut r = Reader::new(vec![2]);
    assert_eq!(Values::default().load(&mut r), Err(LoadError::UnknownControlVersion));
}

#[test]
fn birth_credit_sets_aside_a_seed() {
    let unit = BirthCredit { giveaway: Sampler { nominal: 30 } };
    let mut values = Values::default();
    let mut b = Body::default();
    b.credits = 100;
    b.reserve = 20;
    unit.tick(50, &mut values, &mut b);
    assert_eq!(b.reserve, 50);
    assert_eq!(values.birthcredits.len(), 1);
    assert_eq!(values.birthcredits[0].credits, 30);
    unit.tick(60, &mut values, &mut b);
    assert_eq!(b.reserve, 50);
    assert_eq!(values.birthcredits.len(), 1);
}

#[test]
fn child_maker_gives_seed_the_blueprint() {
    let maker = ChildMaker { variator: Variator { precision: 1 } };
    let units = Units { units: vec![sensor(7)] };
    let mut values = Values::default();
    assert!(maker.take_seed(&units, &mut values).is_none());
    values.birthcredits.push_back(Seed::new(12));
    let seed = maker.take_seed(&units, &mut values).unwrap();
    assert_eq!(seed.credits, 12);
    assert_eq!(values.birthcredits.len(), 0);
    let items = seed.blueprints.get_collection().unwrap();
    assert_eq!(items.len(), 1);
    assert_eq!(items[0].get_u32(0), Ok(7));
}

#[test]
fn spawner_asks_for_children() {
    let spawner = Spawner {};
    let mut values = Values::default();
    values.seeds.push_back(Seed::new(40));
    values.seeds.push_back(Seed::new(70));
    values.seeds.push_back(Seed::new(10));
    let mut b = Body::default();
    b.credits = 100;
    spawner.tick(&mut values, &mut b);
    assert_eq!(values.seeds.len(), 0);
    assert_eq!(b.credits, 50);
    assert_eq!(b.inside.len(), 2);
}
