use arcadia::blueprint::BluePrint;
use arcadia::storage::{LoadError, Reader, Writer};

fn sample() -> BluePrint {
    BluePrint::Collection {
        unit: 2,
        value: vec![BluePrint::UValue { value: 7 }, BluePrint::FValue { value: f32::to_bits(1.0) }],
    }
}

fn sample_bytes() -> Vec<u8> {
    vec![3, 2, 0, 2, 0, 0, 0, 2, 7, 0, 0, 0, 1, 0, 0, 0x80, 0x3f]
}

#[test]
fn blueprint_save_bytes() {
    let mut w = Writer::new();
    sample().save(&mut w);
    assert_eq!(w.into_bytes(), sample_bytes());
}

#[test]
fn blueprint_load_reads_saved_bytes() {
    let mut bytes = sample_bytes();
    bytes.push(99);
    let mut r = Reader::new(bytes);
    let bp = BluePrint::load(&mut r).unwrap();
    assert_eq!(r.position(), 17);
    assert_eq!(bp.get_unit(), Ok(2));
    assert_eq!(bp.get_u32(0), Ok(7));
    assert_eq!(bp.get_f32(1), Ok(f32::to_bits(1.0)));
    assert_eq!(bp.get_collection().unwrap().len(), 2);
    let mut w = Writer::new();
    bp.save(&mut w);
    assert_eq!(w.into_bytes(), sample_bytes());
}

#[test]
fn blueprint_nested_collection_round_trip() {
    let bp = BluePrint::new(1, vec![sample(), BluePrint::new(6, vec![])]);
    let mut w = Writer::new();
    bp.save(&mut w);
    let bytes = w.into_bytes();
    assert_eq!(bytes.len(), 7 + 17 + 7);
    let mut r = Reader::new(bytes.clone());
    let back = BluePrint::load(&mut r).unwrap();
    assert!(r.at_end());
    let inner = back.get_collection().unwrap();
    assert_eq!(inner[0].get_unit(), Ok(2));
    assert_eq!(inner[1].get_unit(), Ok(6));
    let mut w2 = Writer::new();
    back.save(&mut w2);
    assert_eq!(w2.into_bytes(), bytes);
}

#[test]
fn blueprint_unknown_tag() {
    let mut r = Reader::new(vec![9, 0, 0, 0, 0]);
    assert!(matches!(BluePrint::load(&mut r), Err(LoadError::UnknownUnit)));
    assert_eq!(r.position(), 1);
}

#[test]
fn blueprint_truncated() {
    let mut r = Reader::new(vec![3, 2, 0, 2, 0, 0, 0, 2, 7, 0]);
    assert!(matches!(BluePrint::load(&mut r), Err(LoadError::UnexpectedEof)));
    let mut r = Reader::new(vec![2, 7, 0]);
    assert!(matches!(BluePrint::load(&mut r), Err(LoadError::UnexpectedEof)));
}

#[test]
fn blueprint_accessor_errors() {
    let v = BluePrint::from(5u32);
    assert!(matches!(v, BluePrint::UValue { value: 5 }));
    assert!(matches!(v.get_collection(), Err(LoadError::CollectionRequired)));
    assert_eq!(v.get_unit(), Err(LoadError::CollectionRequired));
    assert_eq!(v.get_u32(0), Err(LoadError::CollectionRequired));
    let c = sample();
    assert_eq!(c.get_f32(0), Err(LoadError::F32Required));
    assert_eq!(c.get_u32(1), Err(LoadError::U32Required));
}

#[test]
fn blueprint_default_is_empty_compound() {
    let d = BluePrint::default();
    assert_eq!(d.get_unit(), Ok(1));
    assert_eq!(d.get_collection().unwrap().len(), 0);
}
