use arcadia::telemetry::{Message, Writer};

#[test]
fn new_file_starts_with_version() {
    let mut w = Writer::new(0);
    assert_eq!(w.take_bytes(), vec![1, 0]);
    assert_eq!(w.take_bytes(), Vec::<u8>::new());
}

#[test]
fn appended_file_gets_no_header() {
    let mut w = Writer::new(40);
    assert_eq!(w.take_bytes(), Vec::<u8>::new());
}

#[test]
fn death_record() {
    let mut w = Writer::new(10);
    w.write(5, Message::Death { id: 7 });
    assert_eq!(
        w.take_bytes(),
        vec![0, 0, 5, 0, 0, 0, 0, 0, 0, 0, 1, 0, 1, 8, 0, 7, 0, 0, 0, 0, 0, 0, 0]
    );
}

#[test]
fn birth_record() {
    let mut w = Writer::new(0);
    w.write(258, Message::Birth { id: 3, parent: 2, home: 1 });
    assert_eq!(
        w.take_bytes(),
        vec![
            1, 0, 0, 0, 2, 1, 0, 0, 0, 0, 0, 0, 2, 0, 1, 24, 0, 3, 0, 0, 0, 0, 0, 0, 0, 2, 0, 0,
            0, 0, 0, 0, 0, 1, 0, 0, 0, 0, 0, 0, 0
        ]
    );
}
