//! The working memory of an actor's control: measured values, the credits
//! set aside for children, and the seeds of children to come.
use crate::blueprint::{lemma_plan_roundtrip, parse_plan, plan_stop, plan_bytes, plan_of, plan_wf, BluePrint, Plan};
use crate::bytes::{lemma_u32_roundtrip, u32_le};
use crate::storage::{
    counted_stop, many_stop,
    counted_bytes, lemma_counted_roundtrip, lemma_skip_add, lemma_many_bytes_push, lemma_many_step, many_bytes, many_so_far, parse_counted,
    newer_than, parse_many, parse_u32, parse_u8, read_into, read_step, LoadError, Parsed, Reader, Writer,
};
use std::collections::VecDeque;
use vstd::prelude::*;
use vstd::seq_lib::lemma_concat_associative;

verus! {

/// Credits set aside for a child, and the blueprint it will grow from.
pub struct Seed {
    pub credits: u32,
    pub blueprints: BluePrint,
}

/// The content of a seed.
pub struct SeedPlan {
    pub credits: u32,
    pub plan: Plan,
}

pub open spec fn seed_plan(s: Seed) -> SeedPlan {
    SeedPlan { credits: s.credits, plan: plan_of(s.blueprints) }
}

pub open spec fn seeds_plan(q: Seq<Seed>) -> Seq<SeedPlan> {
    Seq::new(q.len(), |i: int| seed_plan(q[i]))
}

/// The bytes of a seed: its credits, then its blueprint.
pub open spec fn seed_bytes(p: SeedPlan) -> Seq<u8> {
    u32_le(p.credits) + plan_bytes(p.plan)
}

#[verifier::opaque]
pub open spec fn parse_seed(s: Seq<u8>) -> Parsed<SeedPlan> {
    match parse_u32(s) {
        Err(e) => Err(e),
        Ok((credits, _)) => match parse_plan(s.skip(4)) {
            Ok((plan, n)) => Ok((SeedPlan { credits, plan }, 4 + n)),
            Err(e) => Err(e),
        },
    }
}

pub open spec fn seed_parser() -> spec_fn(Seq<u8>) -> Parsed<SeedPlan> {
    |s: Seq<u8>| parse_seed(s)
}

pub open spec fn seed_writer() -> spec_fn(SeedPlan) -> Seq<u8> {
    |p: SeedPlan| seed_bytes(p)
}

#[verifier::spinoff_prover]
pub proof fn lemma_seed_roundtrip(p: SeedPlan, rest: Seq<u8>)
    requires
        plan_wf(p.plan),
    ensures
        parse_seed(seed_bytes(p) + rest) == Ok::<(SeedPlan, nat), LoadError>(
            (p, seed_bytes(p).len()),
        ),
{
    reveal(parse_seed);
    let s = seed_bytes(p) + rest;
    lemma_u32_roundtrip(p.credits, plan_bytes(p.plan) + rest);
    assert(s =~= u32_le(p.credits) + (plan_bytes(p.plan) + rest));
    assert(s.skip(4) =~= plan_bytes(p.plan) + rest);
    lemma_plan_roundtrip(p.plan, rest);
}

/// How far reading a seed from `s` gets before it fails: past its credits
/// and as far as its blueprint gets.
pub open spec fn seed_stop(s: Seq<u8>) -> nat {
    match parse_u32(s) {
        Err(_) => 0,
        Ok(_) => 4 + plan_stop(s.skip(4)),
    }
}

pub open spec fn seed_stopper() -> spec_fn(Seq<u8>) -> nat {
    |s: Seq<u8>| seed_stop(s)
}

impl Seed {
    /// Credits for a child, with an empty blueprint.
    pub fn new(credits: u32) -> (r: Seed)
        ensures
            r.credits == credits,
            r.blueprints matches BluePrint::Collection { unit, value } && unit
                == crate::blueprint::COMPOUND && value@.len() == 0,
    {
        Seed { credits, blueprints: BluePrint::default() }
    }

    pub fn load(source: &mut Reader) -> (r: Result<Seed, LoadError>)
        ensures
            read_into(*old(source), *final(source), r, parse_seed(old(source).rest()), |x: Seed| seed_plan(x)),
            r is Err ==> final(source).pos() == old(source).pos() + seed_stop(old(source).rest()),
    {
        let ghost s0 = source.rest();
        proof {
            reveal(parse_seed);
        }
        let credits = source.u32()?;
        assert(source.rest() =~= s0.skip(4));
        let blueprints = BluePrint::load(source)?;
        Ok(Seed { credits, blueprints })
    }

    pub fn save(&self, target: &mut Writer)
        ensures
            final(target)@ == old(target)@ + seed_bytes(seed_plan(*self)),
    {
        target.u32(self.credits);
        self.blueprints.save(target);
        assert(target@ =~= old(target)@ + seed_bytes(seed_plan(*self)));
    }
}

/// Tag of a float value.
pub const FVALUE: u8 = 1;

/// A measured value: a float, held as its IEEE-754 bit pattern.
#[derive(Debug, Clone, Copy, PartialEq, Eq, Structural)]
pub enum Value {
    FValue { value: u32 },
}

pub open spec fn value_bytes(v: Value) -> Seq<u8> {
    match v {
        Value::FValue { value } => seq![FVALUE] + u32_le(value),
    }
}

pub open spec fn parse_value(s: Seq<u8>) -> Parsed<Value> {
    match parse_u8(s) {
        Err(e) => Err(e),
        Ok((tag, _)) => if tag == FVALUE {
            match parse_u32(s.skip(1)) {
                Ok((value, n)) => Ok((Value::FValue { value }, 1 + n)),
                Err(e) => Err(e),
            }
        } else {
            Err(LoadError::UnknownValue)
        },
    }
}

pub open spec fn value_parser() -> spec_fn(Seq<u8>) -> Parsed<Value> {
    |s: Seq<u8>| parse_value(s)
}

pub open spec fn value_writer() -> spec_fn(Value) -> Seq<u8> {
    |v: Value| value_bytes(v)
}

#[verifier::spinoff_prover]
pub proof fn lemma_value_roundtrip(v: Value, rest: Seq<u8>)
    ensures
        parse_value(value_bytes(v) + rest) == Ok::<(Value, nat), LoadError>(
            (v, value_bytes(v).len()),
        ),
{
    match v {
        Value::FValue { value } => {
            let s = value_bytes(v) + rest;
            lemma_u32_roundtrip(value, rest);
            assert(s.skip(1) =~= u32_le(value) + rest);
        },
    }
}

/// How far reading a value from `s` gets before it fails: past its tag.
pub open spec fn value_stop(s: Seq<u8>) -> nat {
    match parse_u8(s) {
        Err(_) => 0,
        Ok(_) => 1,
    }
}

pub open spec fn value_stopper() -> spec_fn(Seq<u8>) -> nat {
    |s: Seq<u8>| value_stop(s)
}

impl Value {
    pub fn load(reader: &mut Reader) -> (r: Result<Value, LoadError>)
        ensures
            read_step(*old(reader), *final(reader), r, parse_value(old(reader).rest())),
            r is Err ==> final(reader).pos() == old(reader).pos() + value_stop(old(reader).rest()),
    {
        let ghost s0 = reader.rest();
        let tag = reader.u8()?;
        if tag == FVALUE {
            assert(reader.rest() =~= s0.skip(1));
            let value = reader.float_bits()?;
            Ok(Value::FValue { value })
        } else {
            Err(LoadError::UnknownValue)
        }
    }

    pub fn save(&self, writer: &mut Writer)
        ensures
            final(writer)@ == old(writer)@ + value_bytes(*self),
    {
        match self {
            Value::FValue { value } => {
                writer.u8(FVALUE);
                writer.float_bits(*value);
                assert(writer@ =~= old(writer)@ + value_bytes(*self));
            },
        }
    }
}

/// The version of the values block that this library writes and the
/// newest that it reads.
pub const VALUES_VERSION: u8 = 1;

/// The working memory of an actor's control. The measured credits are a
/// float, held as its IEEE-754 bit pattern.
pub struct Values {
    pub values: Vec<Value>,
    pub credits: u32,
    pub birth: bool,
    pub birthcredits: VecDeque<Seed>,
    pub seeds: VecDeque<Seed>,
}

/// The content of a values block.
pub struct ValuesPlan {
    pub values: Seq<Value>,
    pub credits: u32,
    pub birth: bool,
    pub birthcredits: Seq<SeedPlan>,
    pub seeds: Seq<SeedPlan>,
}

pub open spec fn values_plan(v: Values) -> ValuesPlan {
    ValuesPlan {
        values: v.values@,
        credits: v.credits,
        birth: v.birth,
        birthcredits: seeds_plan(v.birthcredits@),
        seeds: seeds_plan(v.seeds@),
    }
}

/// The bytes of a values block: its version, the values, the measured
/// credits, the birth flag as one byte, the seeds waiting for a blueprint
/// and the seeds ready to be born.
pub open spec fn values_bytes(p: ValuesPlan) -> Seq<u8> {
    seq![VALUES_VERSION] + (counted_bytes(p.values, value_writer()) + (u32_le(p.credits) + (seq![
        if p.birth {
            1u8
        } else {
            0u8
        },
    ] + (counted_bytes(p.birthcredits, seed_writer()) + counted_bytes(p.seeds, seed_writer())))))
}

/// Reads the two seed lists that end a values block.
pub open spec fn parse_seed_lists(s: Seq<u8>) -> Parsed<(Seq<SeedPlan>, Seq<SeedPlan>)> {
    match parse_counted(s, seed_parser()) {
        Err(e) => Err(e),
        Ok((birthcredits, n)) => match parse_counted(s.skip(n as int), seed_parser()) {
            Err(e) => Err(e),
            Ok((seeds, m)) => Ok(((birthcredits, seeds), n + m)),
        },
    }
}

/// Reads what follows the values of a values block.
pub open spec fn parse_values_tail(s: Seq<u8>, values: Seq<Value>) -> Parsed<ValuesPlan> {
    match parse_u32(s) {
        Err(e) => Err(e),
        Ok((credits, _)) => match parse_u8(s.skip(4)) {
            Err(e) => Err(e),
            Ok((b, _)) => match parse_seed_lists(s.skip(5)) {
                Err(e) => Err(e),
                Ok(((birthcredits, seeds), n)) => Ok(
                    (ValuesPlan { values, credits, birth: b != 0, birthcredits, seeds }, 5 + n),
                ),
            },
        },
    }
}

/// Reads a values block: its version, which must not be newer than this
/// library's, then its values, credits, birth flag and seed lists.
#[verifier::opaque]
pub open spec fn parse_values(s: Seq<u8>) -> Parsed<ValuesPlan> {
    match parse_u8(s) {
        Err(e) => Err(e),
        Ok((version, _)) => if version > VALUES_VERSION {
            Err(LoadError::UnknownControlVersion)
        } else {
            match parse_counted(s.skip(1), value_parser()) {
                Err(e) => Err(e),
                Ok((values, n)) => match parse_values_tail(s.skip(1).skip(n as int), values) {
                    Err(e) => Err(e),
                    Ok((p, m)) => Ok((p, 1 + n + m)),
                },
            }
        },
    }
}

/// How far reading a values block from `s` gets before it fails.
pub open spec fn values_stop(s: Seq<u8>) -> nat {
    match parse_u8(s) {
        Err(_) => 0,
        Ok((version, _)) => if version > VALUES_VERSION {
            1
        } else {
            match parse_counted(s.skip(1), value_parser()) {
                Err(_) => 1 + counted_stop(s.skip(1), value_parser(), value_stopper()),
                Ok((_, n)) => {
                    let t = s.skip(1).skip(n as int);
                    match parse_u32(t) {
                        Err(_) => 1 + n,
                        Ok(_) => match parse_u8(t.skip(4)) {
                            Err(_) => 1 + n + 4,
                            Ok(_) => match parse_counted(t.skip(5), seed_parser()) {
                                Err(_) => 1 + n + 5 + counted_stop(
                                    t.skip(5),
                                    seed_parser(),
                                    seed_stopper(),
                                ),
                                Ok((_, m)) => 1 + n + 5 + m + counted_stop(
                                    t.skip(5).skip(m as int),
                                    seed_parser(),
                                    seed_stopper(),
                                ),
                            },
                        },
                    }
                },
            }
        },
    }
}

/// What reading a values block from `s` over `p` leaves when the reading
/// fails: each part read before the failure replaces its part of `p`.
pub open spec fn values_partial(p: ValuesPlan, s: Seq<u8>) -> ValuesPlan {
    match parse_u8(s) {
        Err(_) => p,
        Ok((version, _)) => if version > VALUES_VERSION {
            p
        } else {
            match parse_counted(s.skip(1), value_parser()) {
                Err(_) => p,
                Ok((values, n)) => {
                    let t = s.skip(1).skip(n as int);
                    let p1 = ValuesPlan { values, ..p };
                    match parse_u32(t) {
                        Err(_) => p1,
                        Ok((credits, _)) => {
                            let p2 = ValuesPlan { credits, ..p1 };
                            match parse_u8(t.skip(4)) {
                                Err(_) => p2,
                                Ok((b, _)) => {
                                    let p3 = ValuesPlan { birth: b != 0, ..p2 };
                                    match parse_counted(t.skip(5), seed_parser()) {
                                        Err(_) => p3,
                                        Ok((birthcredits, _)) => ValuesPlan { birthcredits, ..p3 },
                                    }
                                },
                            }
                        },
                    }
                },
            }
        },
    }
}

/// The values block holds at most `u32::MAX` entries in each list and only
/// blueprints whose counts fit, so that its bytes record it exactly.
pub open spec fn values_wf(p: ValuesPlan) -> bool {
    &&& p.values.len() <= u32::MAX
    &&& p.birthcredits.len() <= u32::MAX
    &&& p.seeds.len() <= u32::MAX
    &&& forall|i: int| 0 <= i < p.birthcredits.len() ==> plan_wf(#[trigger] p.birthcredits[i].plan)
    &&& forall|i: int| 0 <= i < p.seeds.len() ==> plan_wf(#[trigger] p.seeds[i].plan)
}

#[verifier::spinoff_prover]
proof fn lemma_value_list_roundtrip(values: Seq<Value>, rest: Seq<u8>)
    requires
        values.len() <= u32::MAX,
    ensures
        parse_counted(counted_bytes(values, value_writer()) + rest, value_parser()) == Ok::<
            (Seq<Value>, nat),
            LoadError,
        >((values, counted_bytes(values, value_writer()).len())),
{
    assert forall|i: int, r: Seq<u8>|
        #![trigger value_parser()(value_writer()(values[i]) + r)]
        0 <= i < values.len() implies value_parser()(value_writer()(values[i]) + r) == Ok::<
            (Value, nat),
            LoadError,
        >((values[i], value_writer()(values[i]).len())) by {
        lemma_value_roundtrip(values[i], r);
    }
    lemma_counted_roundtrip(values, rest, value_parser(), value_writer());
}

#[verifier::spinoff_prover]
proof fn lemma_seed_list_roundtrip(seeds: Seq<SeedPlan>, rest: Seq<u8>)
    requires
        seeds.len() <= u32::MAX,
        forall|i: int| 0 <= i < seeds.len() ==> plan_wf(#[trigger] seeds[i].plan),
    ensures
        parse_counted(counted_bytes(seeds, seed_writer()) + rest, seed_parser()) == Ok::<
            (Seq<SeedPlan>, nat),
            LoadError,
        >((seeds, counted_bytes(seeds, seed_writer()).len())),
{
    assert forall|i: int, r: Seq<u8>|
        #![trigger seed_parser()(seed_writer()(seeds[i]) + r)]
        0 <= i < seeds.len() implies seed_parser()(seed_writer()(seeds[i]) + r) == Ok::<
            (SeedPlan, nat),
            LoadError,
        >((seeds[i], seed_writer()(seeds[i]).len())) by {
        lemma_seed_roundtrip(seeds[i], r);
    }
    lemma_counted_roundtrip(seeds, rest, seed_parser(), seed_writer());
}

#[verifier::spinoff_prover]
proof fn lemma_values_tail_roundtrip(p: ValuesPlan, rest: Seq<u8>)
    requires
        values_wf(p),
    ensures
        parse_values_tail(
            u32_le(p.credits) + (seq![if p.birth { 1u8 } else { 0u8 }] + (counted_bytes(
                p.birthcredits,
                seed_writer(),
            ) + (counted_bytes(p.seeds, seed_writer()) + rest))),
            p.values,
        ) == Ok::<(ValuesPlan, nat), LoadError>(
            (
                p,
                5 + counted_bytes(p.birthcredits, seed_writer()).len() + counted_bytes(
                    p.seeds,
                    seed_writer(),
                ).len(),
            ),
        ),
{
    let bcb = counted_bytes(p.birthcredits, seed_writer());
    let sb = counted_bytes(p.seeds, seed_writer());
    let flag: Seq<u8> = seq![if p.birth { 1u8 } else { 0u8 }];
    let u = bcb + (sb + rest);
    let x = flag + u;
    let t = u32_le(p.credits) + x;
    lemma_u32_roundtrip(p.credits, x);
    lemma_skip_add(u32_le(p.credits), x, 0);
    lemma_skip_add(u32_le(p.credits), x, 1);
    lemma_skip_add(flag, u, 0);
    assert(t.skip(5) == u);
    let lists = parse_seed_lists(u);
    assert(lists == Ok::<((Seq<SeedPlan>, Seq<SeedPlan>), nat), LoadError>(
        ((p.birthcredits, p.seeds), bcb.len() + sb.len()),
    )) by {
        lemma_seed_list_roundtrip(p.birthcredits, sb + rest);
        lemma_skip_add(bcb, sb + rest, 0);
        lemma_seed_list_roundtrip(p.seeds, rest);
    }
}

#[verifier::spinoff_prover]
proof fn lemma_values_parts(p: ValuesPlan, rest: Seq<u8>)
    requires
        values_wf(p),
    ensures
        ({
            let s = values_bytes(p) + rest;
            let n = counted_bytes(p.values, value_writer()).len();
            &&& parse_u8(s) == Ok::<(u8, nat), LoadError>((VALUES_VERSION, 1))
            &&& parse_counted(s.skip(1), value_parser()) == Ok::<(Seq<Value>, nat), LoadError>(
                (p.values, n),
            )
            &&& parse_values_tail(s.skip(1).skip(n as int), p.values) == Ok::<
                (ValuesPlan, nat),
                LoadError,
            >(
                (
                    p,
                    5 + counted_bytes(p.birthcredits, seed_writer()).len() + counted_bytes(
                        p.seeds,
                        seed_writer(),
                    ).len(),
                ),
            )
        }),
{
    let vb = counted_bytes(p.values, value_writer());
    let bcb = counted_bytes(p.birthcredits, seed_writer());
    let sb = counted_bytes(p.seeds, seed_writer());
    let flag: Seq<u8> = seq![if p.birth { 1u8 } else { 0u8 }];
    let c = u32_le(p.credits);
    let t1 = c + (flag + (bcb + (sb + rest)));
    let s = values_bytes(p) + rest;
    assert(s == seq![VALUES_VERSION] + (vb + t1)) by {
        lemma_concat_associative(bcb, sb, rest);
        lemma_concat_associative(flag, bcb + sb, rest);
        lemma_concat_associative(c, flag + (bcb + sb), rest);
        lemma_concat_associative(vb, c + (flag + (bcb + sb)), rest);
        lemma_concat_associative(seq![VALUES_VERSION], vb + (c + (flag + (bcb + sb))), rest);
    }
    assert(s.skip(1) == vb + t1) by {
        lemma_skip_add(seq![VALUES_VERSION], vb + t1, 0);
    }
    assert(s.skip(1).skip(vb.len() as int) == t1) by {
        lemma_skip_add(vb, t1, 0);
    }
    assert(parse_counted(s.skip(1), value_parser()) == Ok::<(Seq<Value>, nat), LoadError>(
        (p.values, vb.len()),
    )) by {
        lemma_value_list_roundtrip(p.values, t1);
    }
    assert(parse_values_tail(t1, p.values) == Ok::<(ValuesPlan, nat), LoadError>(
        (p, 5 + bcb.len() + sb.len()),
    )) by {
        lemma_values_tail_roundtrip(p, rest);
    }
    assert(parse_u8(s) == Ok::<(u8, nat), LoadError>((VALUES_VERSION, 1)));
}

/// Reading back the bytes of a values block gives the block, whatever
/// follows them.
#[verifier::spinoff_prover]
pub proof fn lemma_values_roundtrip(p: ValuesPlan, rest: Seq<u8>)
    requires
        values_wf(p),
    ensures
        parse_values(values_bytes(p) + rest) == Ok::<(ValuesPlan, nat), LoadError>(
            (p, values_bytes(p).len()),
        ),
{
    assert(values_bytes(p).len() == 1 + counted_bytes(p.values, value_writer()).len() + 5 + counted_bytes(p.birthcredits, seed_writer()).len() + counted_bytes(
            p.seeds,
            seed_writer(),
        ).len());
    lemma_values_parts(p, rest);
    lemma_values_from_parts(
        values_bytes(p) + rest,
        p,
        counted_bytes(p.values, value_writer()).len(),
        5 + counted_bytes(p.birthcredits, seed_writer()).len() + counted_bytes(
            p.seeds,
            seed_writer(),
        ).len(),
    );
}

#[verifier::spinoff_prover]
proof fn lemma_values_from_parts(s: Seq<u8>, p: ValuesPlan, n: nat, m: nat)
    requires
        parse_u8(s) == Ok::<(u8, nat), LoadError>((VALUES_VERSION, 1)),
        parse_counted(s.skip(1), value_parser()) == Ok::<(Seq<Value>, nat), LoadError>(
            (p.values, n),
        ),
        parse_values_tail(s.skip(1).skip(n as int), p.values) == Ok::<(ValuesPlan, nat), LoadError>(
            (p, m),
        ),
    ensures
        parse_values(s) == Ok::<(ValuesPlan, nat), LoadError>((p, 1 + n + m)),
{
    reveal(parse_values);
}

impl Default for Values {
    fn default() -> (r: Self)
        ensures
            values_plan(r) == (ValuesPlan {
                values: Seq::empty(),
                credits: 0,
                birth: false,
                birthcredits: Seq::empty(),
                seeds: Seq::empty(),
            }),
    {
        let r = Values {
            values: Vec::new(),
            credits: 0,
            birth: false,
            birthcredits: VecDeque::new(),
            seeds: VecDeque::new(),
        };
        assert(seeds_plan(r.seeds@) =~= Seq::<SeedPlan>::empty());
        assert(seeds_plan(r.birthcredits@) =~= Seq::<SeedPlan>::empty());
        r
    }
}

impl Values {
    fn version(&self) -> (r: u8)
        ensures
            r == VALUES_VERSION,
    {
        VALUES_VERSION
    }

    /// Reads a values block in place of this one, part by part; on an error
    /// the parts read before it have replaced theirs, and a refused version
    /// leaves this one as it was.
    pub fn load(&mut self, reader: &mut Reader) -> (r: Result<(), LoadError>)
        ensures
            final(reader).data() == old(reader).data(),
            final(reader).pos() <= final(reader).data().len(),
            match parse_values(old(reader).rest()) {
                Ok((p, n)) => r is Ok && values_plan(*final(self)) == p && final(reader).pos()
                    == old(reader).pos() + n,
                Err(e) => r == Err::<(), LoadError>(e) && values_plan(*final(self))
                    == values_partial(values_plan(*old(self)), old(reader).rest()),
            },
            newer_than(old(reader).rest(), VALUES_VERSION) ==> *final(self) == *old(self)
                && final(reader).pos() == old(reader).pos() + 1,
            r is Err ==> final(reader).pos() == old(reader).pos() + values_stop(old(reader).rest()),
    {
        let ghost s0 = reader.rest();
        let ghost p0 = values_plan(*self);
        proof {
            reveal(parse_values);
        }
        let version = reader.u8()?;
        if version > self.version() {
            return Err(LoadError::UnknownControlVersion);
        }
        assert(reader.rest() =~= s0.skip(1));
        let ghost p1 = reader.pos();
        let values = load_value_list(reader)?;
        let ghost n = (reader.pos() - p1) as nat;
        let ghost t = s0.skip(1).skip(n as int);
        assert(reader.rest() =~= t);
        self.values = values;
        let credits = reader.float_bits()?;
        assert(reader.rest() =~= t.skip(4));
        self.credits = credits;
        let b = reader.u8()?;
        assert(reader.rest() =~= t.skip(5));
        self.birth = b != 0;
        let ghost p5 = reader.pos();
        let birthcredits = load_seed_queue(reader)?;
        let ghost m = (reader.pos() - p5) as nat;
        assert(reader.rest() =~= t.skip(5).skip(m as int));
        self.birthcredits = birthcredits;
        let seeds = load_seed_queue(reader)?;
        self.seeds = seeds;
        Ok(())
    }

    /// Writes the block in the form that `load` reads.
    pub fn save(&self, writer: &mut Writer)
        ensures
            final(writer)@ == old(writer)@ + values_bytes(values_plan(*self)),
    {
        writer.u8(self.version());
        save_value_list(&self.values, writer);
        writer.float_bits(self.credits);
        writer.u8(if self.birth { 1 } else { 0 });
        save_seed_queue(&self.birthcredits, writer);
        save_seed_queue(&self.seeds, writer);
        assert(writer@ =~= old(writer)@ + values_bytes(values_plan(*self)));
    }
}

/// Reads a count and that many values.
fn load_value_list(reader: &mut Reader) -> (r: Result<Vec<Value>, LoadError>)
    ensures
        read_into(
            *old(reader),
            *final(reader),
            r,
            parse_counted(old(reader).rest(), value_parser()),
            |v: Vec<Value>| v@,
        ),
        r is Err ==> final(reader).pos() == old(reader).pos() + counted_stop(
            old(reader).rest(),
            value_parser(),
            value_stopper(),
        ),
{
    let ghost s0 = reader.rest();
    let count = reader.count()?;
    assert(reader.rest() =~= s0.skip(4));
    let ghost s1 = reader.rest();
    let ghost p1 = reader.pos();
    let mut items: Vec<Value> = Vec::new();
    let mut i: u32 = 0;
    while i < count
        invariant
            reader.data() == old(reader).data(),
            reader.pos() <= reader.data().len(),
            p1 <= reader.pos(),
            s1 == reader.data().skip(p1 as int),
            s1 == s0.skip(4),
            s0 == old(reader).rest(),
            p1 == old(reader).pos() + 4,
            parse_u32(s0) == Ok::<(u32, nat), LoadError>((count, 4)),
            i <= count,
            many_so_far(
                parse_many(s1, count as nat, value_parser()),
                items@,
                (reader.pos() - p1) as nat,
                parse_many(reader.rest(), (count - i) as nat, value_parser()),
            ),
            many_stop(s1, count as nat, value_parser(), value_stopper()) == (reader.pos() - p1) + many_stop(
                reader.rest(),
                (count - i) as nat,
                value_parser(),
                value_stopper(),
            ),
        decreases count - i,
    {
        let ghost before = *reader;
        let item = match Value::load(reader) {
            Ok(v) => v,
            Err(e) => {
                assert(many_stop(before.rest(), (count - i) as nat, value_parser(), value_stopper())
                    == value_stop(before.rest()));
                return Err(e);
            },
        };
        proof {
            let k = (reader.pos() - before.pos()) as nat;
            assert(before.rest().skip(k as int) =~= reader.rest());
            lemma_many_step(
                parse_many(s1, count as nat, value_parser()),
                items@,
                (before.pos() - p1) as nat,
                before.rest(),
                (count - i) as nat,
                value_parser(),
                item,
                k,
            );
        }
        items.push(item);
        i = i + 1;
    }
    assert(items@ + Seq::<Value>::empty() =~= items@);
    Ok(items)
}

/// Reads a count and that many seeds.
fn load_seed_queue(reader: &mut Reader) -> (r: Result<VecDeque<Seed>, LoadError>)
    ensures
        read_into(
            *old(reader),
            *final(reader),
            r,
            parse_counted(old(reader).rest(), seed_parser()),
            |q: VecDeque<Seed>| seeds_plan(q@),
        ),
        r is Err ==> final(reader).pos() == old(reader).pos() + counted_stop(
            old(reader).rest(),
            seed_parser(),
            seed_stopper(),
        ),
{
    let ghost s0 = reader.rest();
    let count = reader.count()?;
    assert(reader.rest() =~= s0.skip(4));
    let ghost s1 = reader.rest();
    let ghost p1 = reader.pos();
    let mut items: VecDeque<Seed> = VecDeque::new();
    let mut i: u32 = 0;
    while i < count
        invariant
            reader.data() == old(reader).data(),
            reader.pos() <= reader.data().len(),
            p1 <= reader.pos(),
            s1 == reader.data().skip(p1 as int),
            s1 == s0.skip(4),
            s0 == old(reader).rest(),
            p1 == old(reader).pos() + 4,
            parse_u32(s0) == Ok::<(u32, nat), LoadError>((count, 4)),
            i <= count,
            many_so_far(
                parse_many(s1, count as nat, seed_parser()),
                seeds_plan(items@),
                (reader.pos() - p1) as nat,
                parse_many(reader.rest(), (count - i) as nat, seed_parser()),
            ),
            many_stop(s1, count as nat, seed_parser(), seed_stopper()) == (reader.pos() - p1) + many_stop(
                reader.rest(),
                (count - i) as nat,
                seed_parser(),
                seed_stopper(),
            ),
        decreases count - i,
    {
        let ghost before = *reader;
        let item = match Seed::load(reader) {
            Ok(v) => v,
            Err(e) => {
                assert(many_stop(before.rest(), (count - i) as nat, seed_parser(), seed_stopper())
                    == seed_stop(before.rest()));
                return Err(e);
            },
        };
        proof {
            let k = (reader.pos() - before.pos()) as nat;
            assert(before.rest().skip(k as int) =~= reader.rest());
            lemma_many_step(
                parse_many(s1, count as nat, seed_parser()),
                seeds_plan(items@),
                (before.pos() - p1) as nat,
                before.rest(),
                (count - i) as nat,
                seed_parser(),
                seed_plan(item),
                k,
            );
        }
        let ghost old_items = items@;
        items.push_back(item);
        assert(seeds_plan(items@) =~= seeds_plan(old_items).push(seed_plan(item)));
        i = i + 1;
    }
    assert(seeds_plan(items@) + Seq::<SeedPlan>::empty() =~= seeds_plan(items@));
    Ok(items)
}

/// Writes a count and the values.
fn save_value_list(items: &Vec<Value>, writer: &mut Writer)
    ensures
        final(writer)@ == old(writer)@ + counted_bytes(items@, value_writer()),
{
    writer.count(items.len());
    let ghost head = writer@;
    let mut i: usize = 0;
    while i < items.len()
        invariant
            i <= items@.len(),
            head == old(writer)@ + u32_le(items@.len() as u32),
            writer@ == head + many_bytes(items@.take(i as int), value_writer()),
        decreases items@.len() - i,
    {
        items[i].save(writer);
        proof {
            assert(items@.take(i + 1) =~= items@.take(i as int).push(items@[i as int]));
            lemma_many_bytes_push(items@.take(i as int), items@[i as int], value_writer());
        }
        i = i + 1;
    }
    assert(items@.take(items@.len() as int) =~= items@);
    assert(writer@ =~= old(writer)@ + counted_bytes(items@, value_writer()));
}

/// Writes a count and the seeds.
fn save_seed_queue(items: &VecDeque<Seed>, writer: &mut Writer)
    ensures
        final(writer)@ == old(writer)@ + counted_bytes(seeds_plan(items@), seed_writer()),
{
    writer.count(items.len());
    let ghost head = writer@;
    let ghost plans = seeds_plan(items@);
    let mut i: usize = 0;
    while i < items.len()
        invariant
            i <= items@.len(),
            plans == seeds_plan(items@),
            head == old(writer)@ + u32_le(items@.len() as u32),
            writer@ == head + many_bytes(plans.take(i as int), seed_writer()),
        decreases items@.len() - i,
    {
        items[i].save(writer);
        proof {
            assert(plans.take(i + 1) =~= plans.take(i as int).push(plans[i as int]));
            lemma_many_bytes_push(plans.take(i as int), plans[i as int], seed_writer());
        }
        i = i + 1;
    }
    assert(plans.take(plans.len() as int) =~= plans);
    assert(writer@ =~= old(writer)@ + counted_bytes(plans, seed_writer()));
}

} // verus!
