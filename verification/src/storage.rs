//! Byte-level readers and writers for the persistent format.
//!
//! A `Reader` walks a byte buffer front to back; a `Writer` accumulates the
//! bytes of a record. Integers are little endian; a float travels as its
//! IEEE-754 bit pattern; a count is a `u32`.
use crate::bytes::{
    lemma_u32_roundtrip, read_u16_le, read_u32_le, read_u64_le, u16_le, u16_of_le, u32_le, u32_of_le, u64_le, u64_of_le,
    write_u16_le, write_u32_le, write_u64_le,
};
use vstd::prelude::*;

verus! {

/// Why a record could not be read.
#[derive(Debug, Clone, Copy, PartialEq, Eq, Structural)]
pub enum LoadError {
    /// The bytes ended in the middle of a record.
    UnexpectedEof,
    /// The universe file has a version this library does not know.
    UnknownVersion,
    /// A control or value block is newer than this library.
    UnknownControlVersion,
    /// A unit record is newer than the unit it belongs to.
    UnknownUnitVersion,
    /// A blueprint tag is none of value, integer or collection.
    UnknownUnit,
    /// A unit record or blueprint names a unit type this library does not
    /// know.
    UnknownUnitType,
    /// A value tag is not the float tag.
    UnknownValue,
    /// A world lists an actor id that no loaded actor has.
    ActorNotFound,
    /// A blueprint was expected to be a collection.
    CollectionRequired,
    /// A blueprint item was expected to be a float.
    F32Required,
    /// A blueprint item was expected to be an integer.
    U32Required,
}

/// What a parse of a byte sequence gives: the value and the number of bytes
/// it took, or the error.
pub type Parsed<T> = Result<(T, nat), LoadError>;

pub open spec fn parse_u8(s: Seq<u8>) -> Parsed<u8> {
    if s.len() >= 1 {
        Ok((s[0], 1))
    } else {
        Err(LoadError::UnexpectedEof)
    }
}

pub open spec fn parse_u16(s: Seq<u8>) -> Parsed<u16> {
    if s.len() >= 2 {
        Ok((u16_of_le(s), 2))
    } else {
        Err(LoadError::UnexpectedEof)
    }
}

pub open spec fn parse_u32(s: Seq<u8>) -> Parsed<u32> {
    if s.len() >= 4 {
        Ok((u32_of_le(s), 4))
    } else {
        Err(LoadError::UnexpectedEof)
    }
}

pub open spec fn parse_u64(s: Seq<u8>) -> Parsed<u64> {
    if s.len() >= 8 {
        Ok((u64_of_le(s), 8))
    } else {
        Err(LoadError::UnexpectedEof)
    }
}

/// The first byte of `s` is a version newer than `version`.
pub open spec fn newer_than(s: Seq<u8>, version: u8) -> bool {
    parse_u8(s) matches Ok((v, _)) && v > version
}

/// Reads `count` records one after the other from the front of `s`, each
/// with `item`.
pub open spec fn parse_many<T>(s: Seq<u8>, count: nat, item: spec_fn(Seq<u8>) -> Parsed<T>) -> Parsed<
    Seq<T>,
>
    decreases count,
{
    if count == 0 {
        Ok((Seq::empty(), 0))
    } else {
        match item(s) {
            Err(e) => Err(e),
            Ok((x, k)) => match parse_many(s.skip(k as int), (count - 1) as nat, item) {
                Ok((xs, m)) => Ok((seq![x] + xs, k + m)),
                Err(e) => Err(e),
            },
        }
    }
}

/// How far reading `count` records from `s` gets before one fails: past the
/// records read before it, then as far as `stop` says reading it gets.
pub open spec fn many_stop<T>(
    s: Seq<u8>,
    count: nat,
    item: spec_fn(Seq<u8>) -> Parsed<T>,
    stop: spec_fn(Seq<u8>) -> nat,
) -> nat
    decreases count,
{
    if count == 0 {
        0
    } else {
        match item(s) {
            Err(_) => stop(s),
            Ok((_, k)) => k + many_stop(s.skip(k as int), (count - 1) as nat, item, stop),
        }
    }
}

/// How far reading a count, then that many records, from `s` gets before
/// it fails.
pub open spec fn counted_stop<T>(
    s: Seq<u8>,
    item: spec_fn(Seq<u8>) -> Parsed<T>,
    stop: spec_fn(Seq<u8>) -> nat,
) -> nat {
    match parse_u32(s) {
        Err(_) => 0,
        Ok((count, _)) => 4 + many_stop(s.skip(4), count as nat, item, stop),
    }
}

/// The records that reading `count` records from `s` gets through before
/// the first one that fails; all of them when none fails.
pub open spec fn many_prefix<T>(s: Seq<u8>, count: nat, item: spec_fn(Seq<u8>) -> Parsed<T>) -> Seq<T>
    decreases count,
{
    if count == 0 {
        Seq::empty()
    } else {
        match item(s) {
            Err(_) => Seq::empty(),
            Ok((x, k)) => seq![x] + many_prefix(s.skip(k as int), (count - 1) as nat, item),
        }
    }
}

/// The records that reading a count, then that many records, from `s` gets
/// through before the first one that fails.
pub open spec fn counted_prefix<T>(s: Seq<u8>, item: spec_fn(Seq<u8>) -> Parsed<T>) -> Seq<T> {
    match parse_u32(s) {
        Err(_) => Seq::empty(),
        Ok((count, _)) => many_prefix(s.skip(4), count as nat, item),
    }
}

/// When every record reads, the records gotten through are the records read.
pub proof fn lemma_many_prefix_whole<T>(s: Seq<u8>, count: nat, item: spec_fn(Seq<u8>) -> Parsed<T>)
    ensures
        parse_many(s, count, item) matches Ok((xs, _)) ==> many_prefix(s, count, item) == xs,
    decreases count,
{
    if count > 0 {
        if let Ok((x, k)) = item(s) {
            lemma_many_prefix_whole(s.skip(k as int), (count - 1) as nat, item);
        }
    }
}

/// One more record read: what is gotten through from before it is that
/// record followed by what is gotten through from after it.
pub proof fn lemma_prefix_step<T>(
    whole: Seq<T>,
    done: Seq<T>,
    s: Seq<u8>,
    count: nat,
    item: spec_fn(Seq<u8>) -> Parsed<T>,
    x: T,
    k: nat,
)
    requires
        count > 0,
        item(s) == Ok::<(T, nat), LoadError>((x, k)),
        whole == done + many_prefix(s, count, item),
    ensures
        whole == done.push(x) + many_prefix(s.skip(k as int), (count - 1) as nat, item),
{
    assert(done + (seq![x] + many_prefix(s.skip(k as int), (count - 1) as nat, item)) =~= done.push(
        x,
    ) + many_prefix(s.skip(k as int), (count - 1) as nat, item));
}

/// The bytes of records written one after the other, each by `bytes`.
pub open spec fn many_bytes<T>(items: Seq<T>, bytes: spec_fn(T) -> Seq<u8>) -> Seq<u8>
    decreases items.len(),
{
    if items.len() == 0 {
        Seq::empty()
    } else {
        bytes(items[0]) + many_bytes(items.drop_first(), bytes)
    }
}

/// A parse of `count` records from `s` is the records already read followed
/// by a parse of the rest from where the reading stands.
pub open spec fn many_so_far<T>(
    whole: Parsed<Seq<T>>,
    done: Seq<T>,
    used: nat,
    rest: Parsed<Seq<T>>,
) -> bool {
    whole == match rest {
        Ok((xs, m)) => Ok((done + xs, used + m)),
        Err(e) => Err::<(Seq<T>, nat), LoadError>(e),
    }
}

/// One more record read: the parse of the remaining records from before it
/// is that record followed by the parse from after it.
pub proof fn lemma_many_step<T>(
    whole: Parsed<Seq<T>>,
    done: Seq<T>,
    used: nat,
    s: Seq<u8>,
    count: nat,
    item: spec_fn(Seq<u8>) -> Parsed<T>,
    x: T,
    k: nat,
)
    requires
        count > 0,
        item(s) == Ok::<(T, nat), LoadError>((x, k)),
        many_so_far(whole, done, used, parse_many(s, count, item)),
    ensures
        many_so_far(
            whole,
            done.push(x),
            used + k,
            parse_many(s.skip(k as int), (count - 1) as nat, item),
        ),
{
    match parse_many(s.skip(k as int), (count - 1) as nat, item) {
        Ok((xs, m)) => {
            assert(done.push(x) + xs =~= done + (seq![x] + xs));
        },
        Err(e) => {},
    }
}

/// The bytes of a run of records grow by the bytes of each record appended.
pub proof fn lemma_many_bytes_push<T>(items: Seq<T>, x: T, bytes: spec_fn(T) -> Seq<u8>)
    ensures
        many_bytes(items.push(x), bytes) == many_bytes(items, bytes) + bytes(x),
    decreases items.len(),
{
    if items.len() == 0 {
        assert(items.push(x).drop_first() =~= Seq::<T>::empty());
        assert(many_bytes(items.push(x).drop_first(), bytes) == Seq::<u8>::empty());
        assert(many_bytes(items.push(x), bytes) =~= many_bytes(items, bytes) + bytes(x));
    } else {
        lemma_many_bytes_push(items.drop_first(), x, bytes);
        let q = items.push(x);
        assert(q.drop_first() =~= items.drop_first().push(x));
        assert(q[0] == items[0]);
        assert(many_bytes(q, bytes) =~= many_bytes(items, bytes) + bytes(x));
    }
}

/// Reading back records written one after the other gives the records, when
/// reading back each record gives it.
pub proof fn lemma_many_roundtrip<T>(
    items: Seq<T>,
    rest: Seq<u8>,
    item: spec_fn(Seq<u8>) -> Parsed<T>,
    bytes: spec_fn(T) -> Seq<u8>,
)
    requires
        forall|i: int, r: Seq<u8>|
            #![trigger item(bytes(items[i]) + r)]
            0 <= i < items.len() ==> item(bytes(items[i]) + r) == Ok::<
                (T, nat),
                LoadError,
            >((items[i], bytes(items[i]).len())),
    ensures
        parse_many(many_bytes(items, bytes) + rest, items.len(), item) == Ok::<
            (Seq<T>, nat),
            LoadError,
        >((items, many_bytes(items, bytes).len())),
    decreases items.len(),
{
    if items.len() == 0 {
        assert(items =~= Seq::<T>::empty());
    } else {
        let first = items[0];
        let others = items.drop_first();
        let s = many_bytes(items, bytes) + rest;
        let tail = many_bytes(others, bytes) + rest;
        assert(s =~= bytes(first) + tail);
        assert(item(bytes(items[0]) + tail) == Ok::<(T, nat), LoadError>(
            (items[0], bytes(items[0]).len()),
        ));
        assert(s.skip(bytes(first).len() as int) =~= tail);
        assert forall|i: int, r: Seq<u8>|
            #![trigger item(bytes(others[i]) + r)]
            0 <= i < others.len() implies item(bytes(others[i]) + r) == Ok::<
                (T, nat),
                LoadError,
            >((others[i], bytes(others[i]).len())) by {
            assert(others[i] == items[i + 1]);
        }
        lemma_many_roundtrip(others, rest, item, bytes);
        assert(seq![first] + others =~= items);
    }
}

/// Reads a count, then that many records, from the front of `s`.
pub open spec fn parse_counted<T>(s: Seq<u8>, item: spec_fn(Seq<u8>) -> Parsed<T>) -> Parsed<Seq<T>> {
    match parse_u32(s) {
        Err(e) => Err(e),
        Ok((count, _)) => match parse_many(s.skip(4), count as nat, item) {
            Ok((xs, m)) => Ok((xs, 4 + m)),
            Err(e) => Err(e),
        },
    }
}

/// The bytes of a count followed by that many records. A count beyond
/// `u32::MAX` keeps its low 32 bits.
pub open spec fn counted_bytes<T>(items: Seq<T>, bytes: spec_fn(T) -> Seq<u8>) -> Seq<u8> {
    u32_le(items.len() as u32) + many_bytes(items, bytes)
}

/// Reading back a count and records written by `counted_bytes` gives the
/// records, when there are at most `u32::MAX` of them and reading back each
/// record gives it.
pub proof fn lemma_counted_roundtrip<T>(
    items: Seq<T>,
    rest: Seq<u8>,
    item: spec_fn(Seq<u8>) -> Parsed<T>,
    bytes: spec_fn(T) -> Seq<u8>,
)
    requires
        items.len() <= u32::MAX,
        forall|i: int, r: Seq<u8>|
            #![trigger item(bytes(items[i]) + r)]
            0 <= i < items.len() ==> item(bytes(items[i]) + r) == Ok::<(T, nat), LoadError>(
                (items[i], bytes(items[i]).len()),
            ),
    ensures
        parse_counted(counted_bytes(items, bytes) + rest, item) == Ok::<(Seq<T>, nat), LoadError>(
            (items, counted_bytes(items, bytes).len()),
        ),
{
    let body = many_bytes(items, bytes) + rest;
    let s = counted_bytes(items, bytes) + rest;
    lemma_u32_roundtrip(items.len() as u32, body);
    assert(s =~= u32_le(items.len() as u32) + body);
    assert(s.skip(4) =~= body);
    lemma_many_roundtrip(items, rest, item, bytes);
}

/// Skipping a prefix and part of what follows it.
pub proof fn lemma_skip_add(a: Seq<u8>, b: Seq<u8>, k: int)
    requires
        0 <= k <= b.len(),
    ensures
        (a + b).skip(a.len() + k) == b.skip(k),
        (a + b).skip(a.len() as int) == b,
{
    assert((a + b).skip(a.len() + k) =~= b.skip(k));
    assert((a + b).skip(a.len() as int) =~= b);
}

/// A reader's step: it kept its bytes, and either the parse failed with the
/// error returned or it succeeded, returned the value and moved past it.
pub open spec fn read_step<T>(
    before: Reader,
    after: Reader,
    res: Result<T, LoadError>,
    p: Parsed<T>,
) -> bool {
    &&& after.data() == before.data()
    &&& after.pos() <= after.data().len()
    &&& match p {
        Ok((v, n)) => res == Ok::<T, LoadError>(v) && after.pos() == before.pos() + n,
        Err(e) => res == Err::<T, LoadError>(e),
    }
}

/// A reader's step that builds a value whose content is given by `view`: it
/// kept its bytes, and either the parse failed with the error returned, or it
/// succeeded and the value returned has the parsed content.
pub open spec fn read_into<T, V>(
    before: Reader,
    after: Reader,
    res: Result<T, LoadError>,
    p: Parsed<V>,
    view: spec_fn(T) -> V,
) -> bool {
    &&& after.data() == before.data()
    &&& after.pos() <= after.data().len()
    &&& match p {
        Ok((v, n)) => res matches Ok(x) && view(x) == v && after.pos() == before.pos() + n,
        Err(e) => res matches Err(f) && f == e,
    }
}

/// Reads records from an in-memory byte buffer.
pub struct Reader {
    source: Vec<u8>,
    pos: usize,
}

impl Reader {
    #[verifier::type_invariant]
    spec fn inv(self) -> bool {
        self.pos <= self.source.len()
    }

    /// All the bytes of the buffer.
    pub closed spec fn data(self) -> Seq<u8> {
        self.source@
    }

    /// How many bytes have been read.
    pub closed spec fn pos(self) -> nat {
        self.pos as nat
    }

    /// The bytes not yet read.
    pub open spec fn rest(self) -> Seq<u8> {
        self.data().skip(self.pos() as int)
    }

    pub fn new(source: Vec<u8>) -> (r: Reader)
        ensures
            r.data() == source@,
            r.pos() == 0,
            r.pos() <= r.data().len(),
            r.rest() == source@,
    {
        let r = Reader { source, pos: 0 };
        assert(r.rest() =~= source@);
        r
    }

    /// How many bytes have been read.
    pub fn position(&self) -> (r: usize)
        ensures
            r == self.pos(),
            r <= self.data().len(),
    {
        proof {
            use_type_invariant(self);
        }
        self.pos
    }

    /// Whether every byte has been read.
    pub fn at_end(&self) -> (r: bool)
        ensures
            r == (self.rest().len() == 0),
    {
        proof {
            use_type_invariant(self);
        }
        self.pos == self.source.len()
    }

    fn remaining(&self) -> (r: usize)
        ensures
            r == self.rest().len(),
    {
        proof {
            use_type_invariant(self);
        }
        self.source.len() - self.pos
    }

    pub fn u8(&mut self) -> (r: Result<u8, LoadError>)
        ensures
            read_step(*old(self), *final(self), r, parse_u8(old(self).rest())),
            r is Err ==> final(self).pos() == old(self).pos(),
    {
        proof {
            use_type_invariant(&*self);
        }
        if self.remaining() < 1 {
            return Err(LoadError::UnexpectedEof);
        }
        let v = self.source[self.pos];
        self.pos = self.pos + 1;
        Ok(v)
    }

    pub fn u16(&mut self) -> (r: Result<u16, LoadError>)
        ensures
            read_step(*old(self), *final(self), r, parse_u16(old(self).rest())),
            r is Err ==> final(self).pos() == old(self).pos(),
    {
        proof {
            use_type_invariant(&*self);
        }
        if self.remaining() < 2 {
            return Err(LoadError::UnexpectedEof);
        }
        let p = self.pos;
        let b = [self.source[p], self.source[p + 1]];
        let v = read_u16_le(b);
        self.pos = p + 2;
        Ok(v)
    }

    pub fn u32(&mut self) -> (r: Result<u32, LoadError>)
        ensures
            read_step(*old(self), *final(self), r, parse_u32(old(self).rest())),
            r is Err ==> final(self).pos() == old(self).pos(),
    {
        proof {
            use_type_invariant(&*self);
        }
        if self.remaining() < 4 {
            return Err(LoadError::UnexpectedEof);
        }
        let p = self.pos;
        let b = [self.source[p], self.source[p + 1], self.source[p + 2], self.source[p + 3]];
        let v = read_u32_le(b);
        self.pos = p + 4;
        Ok(v)
    }

    pub fn u64(&mut self) -> (r: Result<u64, LoadError>)
        ensures
            read_step(*old(self), *final(self), r, parse_u64(old(self).rest())),
            r is Err ==> final(self).pos() == old(self).pos(),
    {
        proof {
            use_type_invariant(&*self);
        }
        if self.remaining() < 8 {
            return Err(LoadError::UnexpectedEof);
        }
        let p = self.pos;
        let b = [
            self.source[p],
            self.source[p + 1],
            self.source[p + 2],
            self.source[p + 3],
            self.source[p + 4],
            self.source[p + 5],
            self.source[p + 6],
            self.source[p + 7],
        ];
        let v = read_u64_le(b);
        self.pos = p + 8;
        Ok(v)
    }

    /// A float, as its IEEE-754 bit pattern.
    pub fn float_bits(&mut self) -> (r: Result<u32, LoadError>)
        ensures
            read_step(*old(self), *final(self), r, parse_u32(old(self).rest())),
            r is Err ==> final(self).pos() == old(self).pos(),
    {
        self.u32()
    }

    /// The number of records that follow.
    pub fn count(&mut self) -> (r: Result<u32, LoadError>)
        ensures
            read_step(*old(self), *final(self), r, parse_u32(old(self).rest())),
            r is Err ==> final(self).pos() == old(self).pos(),
    {
        self.u32()
    }
}

/// Accumulates the bytes of a record.
pub struct Writer {
    target: Vec<u8>,
}

impl View for Writer {
    type V = Seq<u8>;

    closed spec fn view(&self) -> Seq<u8> {
        self.target@
    }
}

impl Writer {
    pub fn new() -> (w: Writer)
        ensures
            w@ == Seq::<u8>::empty(),
    {
        Writer { target: Vec::new() }
    }

    /// The bytes written so far.
    pub fn bytes(&self) -> (r: &Vec<u8>)
        ensures
            r@ == self@,
    {
        &self.target
    }

    /// The bytes written so far, taking the writer.
    pub fn into_bytes(self) -> (r: Vec<u8>)
        ensures
            r@ == self@,
    {
        self.target
    }

    pub fn u8(&mut self, value: u8)
        ensures
            final(self)@ == old(self)@.push(value),
    {
        self.target.push(value);
    }

    pub fn u16(&mut self, value: u16)
        ensures
            final(self)@ == old(self)@ + u16_le(value),
    {
        let b = write_u16_le(value);
        self.target.push(b[0]);
        self.target.push(b[1]);
        assert(self@ =~= old(self)@ + u16_le(value));
    }

    pub fn u32(&mut self, value: u32)
        ensures
            final(self)@ == old(self)@ + u32_le(value),
    {
        let b = write_u32_le(value);
        self.target.push(b[0]);
        self.target.push(b[1]);
        self.target.push(b[2]);
        self.target.push(b[3]);
        assert(self@ =~= old(self)@ + u32_le(value));
    }

    pub fn u64(&mut self, value: u64)
        ensures
            final(self)@ == old(self)@ + u64_le(value),
    {
        let b = write_u64_le(value);
        let mut i: usize = 0;
        while i < 8
            invariant
                0 <= i <= 8,
                b@ == u64_le(value),
                self@ == old(self)@ + b@.take(i as int),
            decreases 8 - i,
        {
            self.target.push(b[i]);
            i = i + 1;
            assert(self@ =~= old(self)@ + b@.take(i as int));
        }
        assert(b@.take(8) =~= b@);
    }

    /// A float, given as its IEEE-754 bit pattern.
    pub fn float_bits(&mut self, bits: u32)
        ensures
            final(self)@ == old(self)@ + u32_le(bits),
    {
        self.u32(bits)
    }

    /// A record count. A count that does not fit in a `u32` keeps its low
    /// 32 bits, as the format has always stored it.
    pub fn count(&mut self, value: usize)
        ensures
            final(self)@ == old(self)@ + u32_le(value as u32),
    {
        self.u32(value as u32)
    }
}

} // verus!
