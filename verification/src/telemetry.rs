//! Telemetry: a log of deaths and births, as records appended to a file.
//! The file starts with a version header; each record names its channel,
//! its tick, its kind and version, and the length of its payload.
use crate::bytes::{u16_le, u64_le};
use crate::storage;
use vstd::prelude::*;

verus! {

/// An event of the universe worth logging.
#[derive(Debug, Clone, Copy, PartialEq, Eq, Structural)]
pub enum Message {
    Death { id: u64 },
    Birth { id: u64, parent: u64, home: u64 },
}

/// The version of the telemetry file.
pub const TELEMETRY_VERSION: u16 = 1;

/// Kind of a death record.
pub const DEATH: u16 = 1;

/// Kind of a birth record.
pub const BIRTH: u16 = 2;

/// The bytes of a record: channel 0, the tick, the kind, version 1, the
/// payload length, and the payload: the id of the dead, or the ids of the
/// born, its parent and its home.
pub open spec fn record_bytes(tick: u64, message: Message) -> Seq<u8> {
    u16_le(0) + u64_le(tick) + match message {
        Message::Death { id } => u16_le(DEATH) + seq![1u8] + u16_le(8) + u64_le(id),
        Message::Birth { id, parent, home } => u16_le(BIRTH) + seq![1u8] + u16_le(24) + u64_le(id)
            + u64_le(parent) + u64_le(home),
    }
}

/// The header of a telemetry file that starts at byte `end` of the file: the
/// version when the file is new, nothing when records are appended to it.
pub open spec fn header_bytes(end: u64) -> Seq<u8> {
    if end == 0 {
        u16_le(TELEMETRY_VERSION)
    } else {
        Seq::empty()
    }
}

/// Encodes telemetry records for a file; the application writes the bytes
/// out.
pub struct Writer {
    writer: storage::Writer,
}

impl View for Writer {
    type V = Seq<u8>;

    closed spec fn view(&self) -> Seq<u8> {
        self.writer@
    }
}

impl Writer {
    /// A writer for a file that currently ends at byte `end`: a new file gets
    /// the version header first.
    pub fn new(end: u64) -> (w: Writer)
        ensures
            w@ == header_bytes(end),
    {
        let mut writer = storage::Writer::new();
        if end == 0 {
            writer.u16(TELEMETRY_VERSION);
            assert(writer@ =~= u16_le(TELEMETRY_VERSION));
        }
        Writer { writer }
    }

    /// Appends the record of `message` at `tick`.
    pub fn write(&mut self, tick: u64, message: Message)
        ensures
            final(self)@ == old(self)@ + record_bytes(tick, message),
    {
        let channel: u16 = 0;
        self.writer.u16(channel);
        self.writer.u64(tick);
        match message {
            Message::Death { id } => {
                self.writer.u16(DEATH);
                self.writer.u8(1);
                self.writer.u16(8);
                self.writer.u64(id);
            },
            Message::Birth { id, parent, home } => {
                self.writer.u16(BIRTH);
                self.writer.u8(1);
                self.writer.u16(24);
                self.writer.u64(id);
                self.writer.u64(parent);
                self.writer.u64(home);
            },
        }
        assert(self@ =~= old(self)@ + record_bytes(tick, message));
    }

    /// Hands over the bytes encoded so far and starts afresh.
    pub fn take_bytes(&mut self) -> (r: Vec<u8>)
        ensures
            r@ == old(self)@,
            final(self)@ == Seq::<u8>::empty(),
    {
        let mut writer = storage::Writer::new();
        std::mem::swap(&mut writer, &mut self.writer);
        writer.into_bytes()
    }
}

} // verus!
