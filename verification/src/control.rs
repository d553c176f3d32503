//! Control units: the parts of an actor's mind. Each unit has a type code,
//! a record in the persistent format, and a blueprint from which a child's
//! unit of the same kind is made. Drawing random numbers and float arithmetic
//! are done by the application; here live the parameters the draws are made
//! with and everything that is decided on integers.
use crate::actors::{available, ActorInside, Body};
use crate::blueprint::{
    lemma_plan_roundtrip, param_f32, param_u32, parse_plan, plan_bytes, plan_len, plan_of, plan_wf,
    plans_of, BluePrint, Plan, COMPOUND,
};
use crate::bytes::{lemma_u16_roundtrip, lemma_u32_roundtrip, u16_le, u32_le};
use crate::storage::{
    counted_prefix, counted_stop, lemma_many_prefix_whole, lemma_prefix_step, many_prefix, many_stop, newer_than,
    counted_bytes, lemma_counted_roundtrip, lemma_many_bytes_push, lemma_many_step,
    lemma_skip_add, many_bytes, many_so_far, parse_counted, parse_many, parse_u16, parse_u32,
    parse_u8, read_into, LoadError, Parsed, Reader, Writer,
};
use crate::values::{
    lemma_values_roundtrip, parse_values, values_partial, values_stop, seed_plan, seeds_plan, values_wf, SeedPlan, values_bytes, values_plan, Seed, Values, ValuesPlan};
use vstd::prelude::*;
use vstd::seq_lib::lemma_concat_associative;

verus! {

/// Unit type of a credit sensor.
pub const CREDIT_SENSOR: u16 = 2;

/// Unit type of a birth signal.
pub const BIRTH_SIGNAL: u16 = 3;

/// Unit type of a birth credit.
pub const BIRTH_CREDIT: u16 = 4;

/// Unit type of a child maker.
pub const CHILD_MAKER: u16 = 5;

/// Unit type of a spawner.
pub const SPAWNER: u16 = 6;

/// The version of every unit record that this library writes, and the
/// newest that it reads.
pub const UNIT_VERSION: u8 = 1;

/// Draws whole numbers around a nominal value; the draw itself, from a normal
/// distribution with a tenth of the nominal value as deviation, is made by
/// the application.
#[derive(Debug, Clone, Copy, PartialEq, Eq, Structural)]
pub struct Sampler {
    pub nominal: u32,
}

impl Sampler {
    pub fn set(&mut self, value: u32)
        ensures
            final(self).nominal == value,
    {
        self.nominal = value;
    }
}

/// Multiplies values by a factor drawn around one; the deviation is the
/// precision in thousandths. The draw is made by the application.
#[derive(Debug, Clone, Copy, PartialEq, Eq, Structural)]
pub struct Variator {
    pub precision: u32,
}

impl Variator {
    pub fn set(&mut self, value: u32)
        ensures
            final(self).precision == value,
    {
        self.precision = value;
    }
}

/// Measures the body's available credits.
#[derive(Debug, Clone, Copy, PartialEq, Eq, Structural)]
pub struct CreditSensor {
    pub variator: Variator,
}

/// Decides whether to give birth; scale and threshold are floats, held as
/// their bit patterns.
#[derive(Debug, Clone, Copy, PartialEq, Eq, Structural)]
pub struct BirthSignal {
    pub scale: u32,
    pub threshold: u32,
    pub variation: u32,
}

/// Sets credits aside for a child.
#[derive(Debug, Clone, Copy, PartialEq, Eq, Structural)]
pub struct BirthCredit {
    pub giveaway: Sampler,
}

/// Gives the credits set aside a blueprint, varied from the parent's own.
#[derive(Debug, Clone, Copy, PartialEq, Eq, Structural)]
pub struct ChildMaker {
    pub variator: Variator,
}

/// Asks the body for the children whose seeds are ready.
#[derive(Debug, Clone, Copy, PartialEq, Eq, Structural)]
pub struct Spawner {}

/// A control unit of one of the known kinds.
#[derive(Debug, Clone, Copy, PartialEq, Eq, Structural)]
pub enum Unit {
    CreditSensor(CreditSensor),
    BirthSignal(BirthSignal),
    BirthCredit(BirthCredit),
    ChildMaker(ChildMaker),
    Spawner(Spawner),
}

/// The type code of a unit.
pub open spec fn unit_type(u: Unit) -> u16 {
    match u {
        Unit::CreditSensor(_) => CREDIT_SENSOR,
        Unit::BirthSignal(_) => BIRTH_SIGNAL,
        Unit::BirthCredit(_) => BIRTH_CREDIT,
        Unit::ChildMaker(_) => CHILD_MAKER,
        Unit::Spawner(_) => SPAWNER,
    }
}

/// A fresh unit of the given type, with every parameter zero; none for an
/// unknown type.
pub open spec fn fresh_unit(utype: u16) -> Option<Unit> {
    if utype == CREDIT_SENSOR {
        Some(Unit::CreditSensor(CreditSensor { variator: Variator { precision: 0 } }))
    } else if utype == BIRTH_SIGNAL {
        Some(Unit::BirthSignal(BirthSignal { scale: 0, threshold: 0, variation: 0 }))
    } else if utype == BIRTH_CREDIT {
        Some(Unit::BirthCredit(BirthCredit { giveaway: Sampler { nominal: 0 } }))
    } else if utype == CHILD_MAKER {
        Some(Unit::ChildMaker(ChildMaker { variator: Variator { precision: 0 } }))
    } else if utype == SPAWNER {
        Some(Unit::Spawner(Spawner {  }))
    } else {
        None
    }
}

/// The parameters of a unit record.
pub open spec fn payload_bytes(u: Unit) -> Seq<u8> {
    match u {
        Unit::CreditSensor(c) => u32_le(c.variator.precision),
        Unit::BirthSignal(b) => u32_le(b.scale) + (u32_le(b.threshold) + u32_le(b.variation)),
        Unit::BirthCredit(b) => u32_le(b.giveaway.nominal),
        Unit::ChildMaker(c) => u32_le(c.variator.precision),
        Unit::Spawner(_) => Seq::empty(),
    }
}

/// Reads the parameters of a unit of the kind of `u`.
pub open spec fn parse_payload(u: Unit, s: Seq<u8>) -> Parsed<Unit> {
    match u {
        Unit::CreditSensor(_) => match parse_u32(s) {
            Ok((v, n)) => Ok((Unit::CreditSensor(CreditSensor { variator: Variator { precision: v } }), n)),
            Err(e) => Err(e),
        },
        Unit::BirthSignal(_) => match parse_u32(s) {
            Err(e) => Err(e),
            Ok((scale, _)) => match parse_u32(s.skip(4)) {
                Err(e) => Err(e),
                Ok((threshold, _)) => match parse_u32(s.skip(8)) {
                    Err(e) => Err(e),
                    Ok((variation, _)) => Ok(
                        (Unit::BirthSignal(BirthSignal { scale, threshold, variation }), 12),
                    ),
                },
            },
        },
        Unit::BirthCredit(_) => match parse_u32(s) {
            Ok((v, n)) => Ok((Unit::BirthCredit(BirthCredit { giveaway: Sampler { nominal: v } }), n)),
            Err(e) => Err(e),
        },
        Unit::ChildMaker(_) => match parse_u32(s) {
            Ok((v, n)) => Ok((Unit::ChildMaker(ChildMaker { variator: Variator { precision: v } }), n)),
            Err(e) => Err(e),
        },
        Unit::Spawner(_) => Ok((u, 0)),
    }
}

/// How far reading the parameters of `u` from `s` gets before it fails:
/// past the parameters of a birth signal read before the failure.
pub open spec fn payload_stop(u: Unit, s: Seq<u8>) -> nat {
    match u {
        Unit::BirthSignal(_) => match parse_u32(s) {
            Err(_) => 0,
            Ok(_) => match parse_u32(s.skip(4)) {
                Err(_) => 4,
                Ok(_) => 8,
            },
        },
        _ => 0,
    }
}

/// How far reading a unit record from `s` gets before it fails: past its
/// type when no unit has it, past its version when that is refused.
pub open spec fn unit_stop(s: Seq<u8>) -> nat {
    match parse_u16(s) {
        Err(_) => 0,
        Ok((utype, _)) => match fresh_unit(utype) {
            None => 2,
            Some(u) => match parse_u8(s.skip(2)) {
                Err(_) => 2,
                Ok((version, _)) => if version > UNIT_VERSION {
                    3
                } else {
                    3 + payload_stop(u, s.skip(3))
                },
            },
        },
    }
}

pub open spec fn unit_stopper() -> spec_fn(Seq<u8>) -> nat {
    |s: Seq<u8>| unit_stop(s)
}

/// What is left of `u` when reading its parameters from `s` fails: a birth
/// signal keeps the scale and threshold read before the failure; any other
/// unit reads a single parameter and is unchanged.
pub open spec fn payload_partial(u: Unit, s: Seq<u8>) -> Unit {
    match u {
        Unit::BirthSignal(b) => match parse_u32(s) {
            Err(_) => u,
            Ok((scale, _)) => match parse_u32(s.skip(4)) {
                Err(_) => Unit::BirthSignal(BirthSignal { scale, ..b }),
                Ok((threshold, _)) => Unit::BirthSignal(BirthSignal { scale, threshold, ..b }),
            },
        },
        _ => u,
    }
}

/// The bytes of a unit record: its type, its version, its parameters.
pub open spec fn unit_bytes(u: Unit) -> Seq<u8> {
    u16_le(unit_type(u)) + (seq![UNIT_VERSION] + payload_bytes(u))
}

/// Reads a unit record: its type, which must be known, its version, which
/// must not be newer than the unit's, and its parameters.
pub open spec fn parse_unit(s: Seq<u8>) -> Parsed<Unit> {
    match parse_u16(s) {
        Err(e) => Err(e),
        Ok((utype, _)) => match fresh_unit(utype) {
            None => Err(LoadError::UnknownUnitType),
            Some(u) => match parse_u8(s.skip(2)) {
                Err(e) => Err(e),
                Ok((version, _)) => if version > UNIT_VERSION {
                    Err(LoadError::UnknownUnitVersion)
                } else {
                    match parse_payload(u, s.skip(3)) {
                        Ok((v, n)) => Ok((v, 3 + n)),
                        Err(e) => Err(e),
                    }
                },
            },
        },
    }
}

pub open spec fn unit_parser() -> spec_fn(Seq<u8>) -> Parsed<Unit> {
    |s: Seq<u8>| parse_unit(s)
}

pub open spec fn unit_writer() -> spec_fn(Unit) -> Seq<u8> {
    |u: Unit| unit_bytes(u)
}

/// Reading back a unit record gives the unit, whatever follows it.
#[verifier::spinoff_prover]
pub proof fn lemma_unit_roundtrip(u: Unit, rest: Seq<u8>)
    ensures
        parse_unit(unit_bytes(u) + rest) == Ok::<(Unit, nat), LoadError>((u, unit_bytes(u).len())),
{
    let t = unit_type(u);
    let p = payload_bytes(u);
    let s = unit_bytes(u) + rest;
    let after = seq![UNIT_VERSION] + (p + rest);
    assert(s =~= u16_le(t) + after);
    lemma_u16_roundtrip(t, after);
    lemma_skip_add(u16_le(t), after, 0);
    lemma_skip_add(u16_le(t), after, 1);
    lemma_skip_add(seq![UNIT_VERSION], p + rest, 0);
    assert(s.skip(3) == p + rest);
    match u {
        Unit::BirthSignal(b) => {
            let x = u32_le(b.threshold) + (u32_le(b.variation) + rest);
            assert(p + rest =~= u32_le(b.scale) + x);
            lemma_u32_roundtrip(b.scale, x);
            lemma_skip_add(u32_le(b.scale), x, 0);
            lemma_u32_roundtrip(b.threshold, u32_le(b.variation) + rest);
            lemma_skip_add(u32_le(b.threshold), u32_le(b.variation) + rest, 0);
            lemma_skip_add(u32_le(b.scale), x, 4);
            lemma_u32_roundtrip(b.variation, rest);
        },
        Unit::Spawner(_) => {
            assert(p + rest =~= rest);
        },
        Unit::CreditSensor(c) => {
            lemma_u32_roundtrip(c.variator.precision, rest);
        },
        Unit::BirthCredit(c) => {
            lemma_u32_roundtrip(c.giveaway.nominal, rest);
        },
        Unit::ChildMaker(c) => {
            lemma_u32_roundtrip(c.variator.precision, rest);
        },
    }
}

/// A unit can be made from `p` without reading past its items: a collection
/// holds every parameter that the unit reads before a wrong one stops it.
pub open spec fn make_defined(u: Unit, p: Plan) -> bool {
    p is Group ==> match u {
        Unit::CreditSensor(_) | Unit::BirthCredit(_) | Unit::ChildMaker(_) => plan_len(p) > 0,
        Unit::BirthSignal(_) => plan_len(p) > 1 && (param_f32(p, 1) is Ok ==> plan_len(p) > 2),
        Unit::Spawner(_) => true,
    }
}

/// The unit that `u` becomes when made from the blueprint `p`. A birth
/// signal takes its threshold and variation from the blueprint and keeps its
/// own scale.
pub open spec fn make_unit(u: Unit, p: Plan) -> Result<Unit, LoadError> {
    match u {
        Unit::CreditSensor(_) => match param_u32(p, 0) {
            Ok(v) => Ok(Unit::CreditSensor(CreditSensor { variator: Variator { precision: v } })),
            Err(e) => Err(e),
        },
        Unit::BirthSignal(b) => match param_f32(p, 1) {
            Err(e) => Err(e),
            Ok(threshold) => match param_u32(p, 2) {
                Err(e) => Err(e),
                Ok(variation) => Ok(
                    Unit::BirthSignal(BirthSignal { scale: b.scale, threshold, variation }),
                ),
            },
        },
        Unit::BirthCredit(_) => match param_u32(p, 0) {
            Ok(v) => Ok(Unit::BirthCredit(BirthCredit { giveaway: Sampler { nominal: v } })),
            Err(e) => Err(e),
        },
        Unit::ChildMaker(_) => match param_u32(p, 0) {
            Ok(v) => Ok(Unit::ChildMaker(ChildMaker { variator: Variator { precision: v } })),
            Err(e) => Err(e),
        },
        Unit::Spawner(_) => Ok(u),
    }
}

/// What is left of `u` when making it from `p` fails: a birth signal keeps
/// the threshold it read before the failure; any other unit is unchanged.
pub open spec fn make_failed(u: Unit, p: Plan) -> Unit {
    match u {
        Unit::BirthSignal(b) => match param_f32(p, 1) {
            Ok(threshold) => Unit::BirthSignal(
                BirthSignal { scale: b.scale, threshold, variation: b.variation },
            ),
            Err(_) => u,
        },
        _ => u,
    }
}

/// The blueprint of a unit: a collection of its type holding its parameters.
pub open spec fn unit_plan(u: Unit) -> Plan {
    match u {
        Unit::CreditSensor(c) => Plan::Group {
            unit: CREDIT_SENSOR,
            items: seq![Plan::Int { value: c.variator.precision }],
        },
        Unit::BirthSignal(b) => Plan::Group {
            unit: BIRTH_SIGNAL,
            items: seq![
                Plan::Float { bits: b.scale },
                Plan::Float { bits: b.threshold },
                Plan::Int { value: b.variation },
            ],
        },
        Unit::BirthCredit(b) => Plan::Group {
            unit: BIRTH_CREDIT,
            items: seq![Plan::Int { value: b.giveaway.nominal }],
        },
        Unit::ChildMaker(c) => Plan::Group {
            unit: CHILD_MAKER,
            items: seq![Plan::Int { value: c.variator.precision }],
        },
        Unit::Spawner(_) => Plan::Group { unit: SPAWNER, items: Seq::empty() },
    }
}

impl Unit {
    /// A fresh unit of the given type; none for an unknown type.
    pub fn for_type(utype: u16) -> (r: Option<Unit>)
        ensures
            r == fresh_unit(utype),
    {
        if utype == CREDIT_SENSOR {
            Some(Unit::CreditSensor(CreditSensor { variator: Variator { precision: 0 } }))
        } else if utype == BIRTH_SIGNAL {
            Some(Unit::BirthSignal(BirthSignal { scale: 0, threshold: 0, variation: 0 }))
        } else if utype == BIRTH_CREDIT {
            Some(Unit::BirthCredit(BirthCredit { giveaway: Sampler { nominal: 0 } }))
        } else if utype == CHILD_MAKER {
            Some(Unit::ChildMaker(ChildMaker { variator: Variator { precision: 0 } }))
        } else if utype == SPAWNER {
            Some(Unit::Spawner(Spawner {  }))
        } else {
            None
        }
    }

    pub fn utype(&self) -> (r: u16)
        ensures
            r == unit_type(*self),
    {
        match self {
            Unit::CreditSensor(_) => CREDIT_SENSOR,
            Unit::BirthSignal(_) => BIRTH_SIGNAL,
            Unit::BirthCredit(_) => BIRTH_CREDIT,
            Unit::ChildMaker(_) => CHILD_MAKER,
            Unit::Spawner(_) => SPAWNER,
        }
    }

    pub fn version(&self) -> (r: u8)
        ensures
            r == UNIT_VERSION,
    {
        UNIT_VERSION
    }

    /// Reads the unit's parameters, each as it is read; on an error the
    /// parameters read before it have been taken.
    pub fn load(&mut self, _version: u8, reader: &mut Reader) -> (r: Result<(), LoadError>)
        ensures
            final(reader).data() == old(reader).data(),
            final(reader).pos() <= final(reader).data().len(),
            match parse_payload(*old(self), old(reader).rest()) {
                Ok((u, n)) => r is Ok && *final(self) == u && final(reader).pos() == old(reader).pos()
                    + n,
                Err(e) => r == Err::<(), LoadError>(e) && *final(self) == payload_partial(
                    *old(self),
                    old(reader).rest(),
                ),
            },
            r is Err ==> final(reader).pos() == old(reader).pos() + payload_stop(
                *old(self),
                old(reader).rest(),
            ),
    {
        let ghost s0 = reader.rest();
        match self {
            Unit::CreditSensor(c) => {
                let v = reader.u32()?;
                c.variator.set(v);
            },
            Unit::BirthSignal(b) => {
                b.scale = reader.float_bits()?;
                assert(reader.rest() =~= s0.skip(4));
                b.threshold = reader.float_bits()?;
                assert(reader.rest() =~= s0.skip(8));
                b.variation = reader.u32()?;
            },
            Unit::BirthCredit(b) => {
                let v = reader.u32()?;
                b.giveaway.set(v);
            },
            Unit::ChildMaker(c) => {
                let v = reader.u32()?;
                c.variator.set(v);
            },
            Unit::Spawner(_) => {
                let _ = reader.position();
            },
        }
        Ok(())
    }

    /// Writes the unit's parameters.
    pub fn save(&self, target: &mut Writer)
        ensures
            final(target)@ == old(target)@ + payload_bytes(*self),
    {
        match self {
            Unit::CreditSensor(c) => target.u32(c.variator.precision),
            Unit::BirthSignal(b) => {
                target.float_bits(b.scale);
                target.float_bits(b.threshold);
                target.u32(b.variation);
                assert(target@ =~= old(target)@ + payload_bytes(*self));
            },
            Unit::BirthCredit(b) => target.u32(b.giveaway.nominal),
            Unit::ChildMaker(c) => target.u32(c.variator.precision),
            Unit::Spawner(_) => {
                assert(target@ =~= old(target)@ + payload_bytes(*self));
            },
        }
    }

    /// The unit's blueprint: a collection of its type holding its parameters.
    pub fn blueprints(&self) -> (r: BluePrint)
        ensures
            plan_of(r) == unit_plan(*self),
    {
        let r = match self {
            Unit::CreditSensor(c) => BluePrint::new(
                CREDIT_SENSOR,
                vec![BluePrint::from(c.variator.precision)],
            ),
            Unit::BirthSignal(b) => BluePrint::new(
                BIRTH_SIGNAL,
                vec![
                    BluePrint::FValue { value: b.scale },
                    BluePrint::FValue { value: b.threshold },
                    BluePrint::from(b.variation),
                ],
            ),
            Unit::BirthCredit(b) => BluePrint::new(
                BIRTH_CREDIT,
                vec![BluePrint::from(b.giveaway.nominal)],
            ),
            Unit::ChildMaker(c) => BluePrint::new(
                CHILD_MAKER,
                vec![BluePrint::from(c.variator.precision)],
            ),
            Unit::Spawner(_) => BluePrint::new(SPAWNER, Vec::new()),
        };
        proof {
            match &r {
                BluePrint::Collection { unit, value } => {
                    assert(plans_of(value@) =~= match unit_plan(*self) {
                        Plan::Group { items, .. } => items,
                        _ => Seq::empty(),
                    });
                    assert(plans_of(value@) =~= match plan_of(r) {
                        Plan::Group { items, .. } => items,
                        _ => Seq::empty(),
                    });
                },
                _ => {},
            }
        }
        r
    }

    /// Takes the unit's parameters from the blueprint `bp`.
    pub fn make(&mut self, bp: &BluePrint) -> (r: Result<(), LoadError>)
        requires
            make_defined(*old(self), plan_of(*bp)),
        ensures
            match make_unit(*old(self), plan_of(*bp)) {
                Ok(u) => r is Ok && *final(self) == u,
                Err(e) => r == Err::<(), LoadError>(e) && *final(self) == make_failed(
                    *old(self),
                    plan_of(*bp),
                ),
            },
    {
        match self {
            Unit::CreditSensor(c) => {
                let v = bp.get_u32(0)?;
                c.variator.set(v);
            },
            Unit::BirthSignal(b) => {
                b.threshold = bp.get_f32(1)?;
                b.variation = bp.get_u32(2)?;
            },
            Unit::BirthCredit(b) => {
                let v = bp.get_u32(0)?;
                b.giveaway.set(v);
            },
            Unit::ChildMaker(c) => {
                let v = bp.get_u32(0)?;
                c.variator.set(v);
            },
            Unit::Spawner(_) => {},
        }
        Ok(())
    }
}

/// The unit that a unit blueprint builds: a fresh unit of the blueprint's
/// type, made from it.
pub open spec fn build_unit(p: Plan) -> Result<Unit, LoadError> {
    match p {
        Plan::Group { unit, .. } => match fresh_unit(unit) {
            None => Err(LoadError::UnknownUnitType),
            Some(u) => make_unit(u, p),
        },
        _ => Err(LoadError::CollectionRequired),
    }
}

/// Building from `p` reads no parameter past its items.
pub open spec fn build_defined(p: Plan) -> bool {
    match p {
        Plan::Group { unit, .. } => match fresh_unit(unit) {
            Some(u) => make_defined(u, p),
            None => true,
        },
        _ => true,
    }
}

/// The units built from unit blueprints in order, up to the first that
/// fails, and that failure.
pub open spec fn build_units(items: Seq<Plan>) -> (Seq<Unit>, Option<LoadError>)
    decreases items.len(),
{
    if items.len() == 0 {
        (Seq::empty(), None)
    } else {
        match build_unit(items[0]) {
            Ok(u) => {
                let (us, e) = build_units(items.drop_first());
                (seq![u] + us, e)
            },
            Err(e) => (Seq::empty(), Some(e)),
        }
    }
}

/// Building from unit blueprints in order reads no parameter past any
/// blueprint's items, up to the first that fails.
pub open spec fn build_units_defined(items: Seq<Plan>) -> bool
    decreases items.len(),
{
    items.len() == 0 || (build_defined(items[0]) && (build_unit(items[0]) is Ok
        ==> build_units_defined(items.drop_first())))
}

/// The units that a control blueprint builds, and the failure that stopped
/// it: its items are unit blueprints.
pub open spec fn control_units(p: Plan) -> (Seq<Unit>, Option<LoadError>) {
    match p {
        Plan::Group { items, .. } => build_units(items),
        _ => (Seq::empty(), Some(LoadError::CollectionRequired)),
    }
}

pub open spec fn control_units_defined(p: Plan) -> bool {
    p matches Plan::Group { items, .. } ==> build_units_defined(items)
}

/// The blueprints of units: a compound collection of each unit's blueprint.
pub open spec fn units_plan(us: Seq<Unit>) -> Plan {
    Plan::Group { unit: COMPOUND, items: Seq::new(us.len(), |i: int| unit_plan(us[i])) }
}

/// The unit that a unit's own blueprint builds: the same unit, except that a
/// birth signal does not take its scale from the blueprint and keeps the
/// fresh unit's zero.
pub open spec fn rebuilt(u: Unit) -> Unit {
    match u {
        Unit::BirthSignal(b) => Unit::BirthSignal(
            BirthSignal { scale: 0, threshold: b.threshold, variation: b.variation },
        ),
        _ => u,
    }
}

proof fn lemma_unit_rebuild(u: Unit)
    ensures
        build_defined(unit_plan(u)),
        build_unit(unit_plan(u)) == Ok::<Unit, LoadError>(rebuilt(u)),
{
}

proof fn lemma_plans_rebuild(us: Seq<Unit>)
    ensures
        build_units_defined(Seq::new(us.len(), |i: int| unit_plan(us[i]))),
        build_units(Seq::new(us.len(), |i: int| unit_plan(us[i]))) == (
            us.map_values(|u: Unit| rebuilt(u)),
            None::<LoadError>,
        ),
    decreases us.len(),
{
    let plans = Seq::new(us.len(), |i: int| unit_plan(us[i]));
    if us.len() == 0 {
        assert(us.map_values(|u: Unit| rebuilt(u)) =~= Seq::<Unit>::empty());
    } else {
        let others = us.drop_first();
        lemma_unit_rebuild(us[0]);
        lemma_plans_rebuild(others);
        assert(plans.drop_first() =~= Seq::new(others.len(), |i: int| unit_plan(others[i])));
        assert(seq![rebuilt(us[0])] + others.map_values(|u: Unit| rebuilt(u)) =~= us.map_values(
            |u: Unit| rebuilt(u),
        ));
    }
}

/// Building the units of a control from the blueprints of units gives back
/// those units, a birth signal's scale aside, and no blueprint fails.
pub proof fn lemma_blueprints_rebuild(us: Seq<Unit>)
    ensures
        control_units_defined(units_plan(us)),
        control_units(units_plan(us)) == (us.map_values(|u: Unit| rebuilt(u)), None::<LoadError>),
{
    lemma_plans_rebuild(us);
}

/// When the next unit blueprint fails to build, building stops there with
/// the units built so far.
proof fn lemma_build_stops(plans: Seq<Plan>, i: int, done: Seq<Unit>, e: LoadError)
    requires
        0 <= i < plans.len(),
        build_unit(plans[i]) == Err::<Unit, LoadError>(e),
        build_units(plans) == ({
            let (us, f) = build_units(plans.skip(i));
            (done + us, f)
        }),
    ensures
        build_units(plans) == (done, Some(e)),
{
    assert(plans.skip(i)[0] == plans[i]);
    assert(done + Seq::<Unit>::empty() =~= done);
}

/// The units of an actor's control, in the order they act.
pub struct Units {
    pub units: Vec<Unit>,
}

impl Default for Units {
    fn default() -> (r: Self)
        ensures
            r.units@ == Seq::<Unit>::empty(),
    {
        Units { units: Vec::new() }
    }
}

impl Units {
    /// Reads a count and that many unit records, appending each unit as it
    /// is read; on an error the units read before it stay appended. A unit
    /// type that no unit has is refused with `UnknownUnitType`; this error
    /// takes the place of a panic, so that reading a file never panics and
    /// the caller decides what such a file means.
    pub fn load(&mut self, reader: &mut Reader) -> (r: Result<(), LoadError>)
        ensures
            final(reader).data() == old(reader).data(),
            final(reader).pos() <= final(reader).data().len(),
            final(self).units@ == old(self).units@ + counted_prefix(old(reader).rest(), unit_parser()),
            match parse_counted(old(reader).rest(), unit_parser()) {
                Ok((us, n)) => r is Ok && final(self).units@ == old(self).units@ + us
                    && final(reader).pos() == old(reader).pos() + n,
                Err(e) => r == Err::<(), LoadError>(e),
            },
            r is Err ==> final(reader).pos() == old(reader).pos() + counted_stop(
                old(reader).rest(),
                unit_parser(),
                unit_stopper(),
            ),
    {
        let ghost s0 = reader.rest();
        proof {
            if let Ok((count, _)) = parse_u32(s0) {
                lemma_many_prefix_whole(s0.skip(4), count as nat, unit_parser());
            }
        }
        let count = match reader.count() {
            Ok(c) => c,
            Err(e) => {
                assert(old(self).units@ + Seq::<Unit>::empty() =~= old(self).units@);
                return Err(e);
            },
        };
        assert(reader.rest() =~= s0.skip(4));
        let ghost s1 = reader.rest();
        let ghost p1 = reader.pos();
        let ghost whole = counted_prefix(s0, unit_parser());
        let ghost mut done: Seq<Unit> = Seq::empty();
        let mut i: u32 = 0;
        proof {
            assert(whole =~= done + many_prefix(s1, count as nat, unit_parser()));
        }
        while i < count
            invariant
                reader.data() == old(reader).data(),
                reader.pos() <= reader.data().len(),
                p1 <= reader.pos(),
                s1 == reader.data().skip(p1 as int),
                s1 == s0.skip(4),
                s0 == old(reader).rest(),
                p1 == old(reader).pos() + 4,
                parse_u32(s0) == Ok::<(u32, nat), LoadError>((count, 4)),
                i <= count,
                whole == counted_prefix(s0, unit_parser()),
                parse_many(s1, count as nat, unit_parser()) matches Ok((xs, _)) ==> whole == xs,
                self.units@ == old(self).units@ + done,
                whole == done + many_prefix(reader.rest(), (count - i) as nat, unit_parser()),
                many_stop(s1, count as nat, unit_parser(), unit_stopper()) == (reader.pos() - p1)
                    + many_stop(reader.rest(), (count - i) as nat, unit_parser(), unit_stopper()),
                many_so_far(
                    parse_many(s1, count as nat, unit_parser()),
                    done,
                    (reader.pos() - p1) as nat,
                    parse_many(reader.rest(), (count - i) as nat, unit_parser()),
                ),
            decreases count - i,
        {
            let ghost before = *reader;
            proof {
                assert(done + Seq::<Unit>::empty() =~= done);
            }
            let utype = reader.u16()?;
            let mut unit = match Unit::for_type(utype) {
                Some(u) => u,
                None => {
                    return Err(LoadError::UnknownUnitType);
                },
            };
            assert(reader.rest() =~= before.rest().skip(2));
            let version = reader.u8()?;
            if version > unit.version() {
                return Err(LoadError::UnknownUnitVersion);
            }
            assert(reader.rest() =~= before.rest().skip(3));
            unit.load(version, reader)?;
            proof {
                let k = (reader.pos() - before.pos()) as nat;
                assert(parse_unit(before.rest()) == Ok::<(Unit, nat), LoadError>((unit, k)));
                assert(before.rest().skip(k as int) =~= reader.rest());
                lemma_many_step(
                    parse_many(s1, count as nat, unit_parser()),
                    done,
                    (before.pos() - p1) as nat,
                    before.rest(),
                    (count - i) as nat,
                    unit_parser(),
                    unit,
                    k,
                );
                lemma_prefix_step(
                    whole,
                    done,
                    before.rest(),
                    (count - i) as nat,
                    unit_parser(),
                    unit,
                    k,
                );
            }
            self.units.push(unit);
            proof {
                done = done.push(unit);
            }
            i = i + 1;
        }
        assert(done + Seq::<Unit>::empty() =~= done);
        Ok(())
    }

    /// Writes a count and a record of each unit: its type, version and
    /// parameters.
    pub fn save(&self, target: &mut Writer)
        ensures
            final(target)@ == old(target)@ + counted_bytes(self.units@, unit_writer()),
    {
        target.count(self.units.len());
        let ghost head = target@;
        let mut i: usize = 0;
        while i < self.units.len()
            invariant
                i <= self.units@.len(),
                head == old(target)@ + u32_le(self.units@.len() as u32),
                target@ == head + many_bytes(self.units@.take(i as int), unit_writer()),
            decreases self.units@.len() - i,
        {
            let unit = &self.units[i];
            let ghost before = target@;
            target.u16(unit.utype());
            target.u8(unit.version());
            unit.save(target);
            proof {
                assert(target@ =~= before + unit_bytes(*unit));
                assert(self.units@.take(i + 1) =~= self.units@.take(i as int).push(*unit));
                lemma_many_bytes_push(self.units@.take(i as int), *unit, unit_writer());
            }
            i = i + 1;
        }
        assert(self.units@.take(self.units@.len() as int) =~= self.units@);
        assert(target@ =~= old(target)@ + counted_bytes(self.units@, unit_writer()));
    }

    /// Builds a unit from each unit blueprint of the control blueprint `bp`,
    /// in order, and appends it; stops at the first blueprint that fails,
    /// keeping the units built before it. A unit type that no unit has is
    /// refused with `UnknownUnitType` in place of a panic.
    pub fn new(&mut self, bp: &BluePrint) -> (r: Result<(), LoadError>)
        requires
            control_units_defined(plan_of(*bp)),
        ensures
            final(self).units@ == old(self).units@ + control_units(plan_of(*bp)).0,
            r == match control_units(plan_of(*bp)).1 {
                None => Ok(()),
                Some(e) => Err::<(), LoadError>(e),
            },
    {
        let items = match bp.get_collection() {
            Ok(items) => items,
            Err(e) => {
                assert(self.units@ =~= old(self).units@ + Seq::<Unit>::empty());
                return Err(e);
            },
        };
        let ghost plans = plans_of(items@);
        proof {
            assert(plans =~= match plan_of(*bp) {
                Plan::Group { items, .. } => items,
                _ => Seq::empty(),
            });
        }
        proof {
            assert(plans.skip(0) =~= plans);
            assert(self.units@.skip(old(self).units@.len() as int) =~= Seq::<Unit>::empty());
            assert(self.units@.take(old(self).units@.len() as int) =~= old(self).units@);
            let (us, e) = build_units(plans);
            assert(Seq::<Unit>::empty() + us =~= us);
        }
        let mut i: usize = 0;
        while i < items.len()
            invariant
                i <= items@.len(),
                plans == plans_of(items@),
                plan_of(*bp) == (Plan::Group { unit: plan_of(*bp)->unit, items: plans }),
                build_units_defined(plans.skip(i as int)),
                build_units(plans) == ({
                    let (us, e) = build_units(plans.skip(i as int));
                    (self.units@.skip(old(self).units@.len() as int) + us, e)
                }),
                self.units@.len() >= old(self).units@.len(),
                self.units@.take(old(self).units@.len() as int) == old(self).units@,
            decreases items@.len() - i,
        {
            let ubp = &items[i];
            let ghost rest = plans.skip(i as int);
            let ghost done = self.units@.skip(old(self).units@.len() as int);
            assert(rest[0] == plan_of(*ubp));
            assert(plans[i as int] == plan_of(*ubp));
            assert(rest.drop_first() =~= plans.skip(i + 1));
            assert(self.units@ =~= old(self).units@ + done);
            let utype = match ubp.get_unit() {
                Ok(t) => t,
                Err(e) => {
                    proof {
                        lemma_build_stops(plans, i as int, done, e);
                    }
                    return Err(e);
                },
            };
            let mut unit = match Unit::for_type(utype) {
                Some(u) => u,
                None => {
                    proof {
                        lemma_build_stops(plans, i as int, done, LoadError::UnknownUnitType);
                    }
                    return Err(LoadError::UnknownUnitType);
                },
            };
            match unit.make(ubp) {
                Ok(()) => {},
                Err(e) => {
                    proof {
                        lemma_build_stops(plans, i as int, done, e);
                    }
                    return Err(e);
                },
            }
            let ghost before = self.units@;
            self.units.push(unit);
            proof {
                assert(self.units@.skip(old(self).units@.len() as int) =~= before.skip(
                    old(self).units@.len() as int,
                ).push(unit));
                assert(self.units@.take(old(self).units@.len() as int) =~= before.take(
                    old(self).units@.len() as int,
                ));
                let (us, e) = build_units(plans.skip(i + 1));
                assert(before.skip(old(self).units@.len() as int).push(unit) + us =~= before.skip(
                    old(self).units@.len() as int,
                ) + (seq![unit] + us));
            }
            i = i + 1;
        }
        proof {
            assert(plans.skip(items@.len() as int) =~= Seq::<Plan>::empty());
            assert(self.units@ =~= old(self).units@ + self.units@.skip(
                old(self).units@.len() as int,
            ));
        }
        Ok(())
    }

    /// The blueprint of every unit, gathered in a compound collection.
    pub fn blueprints(&self) -> (r: BluePrint)
        ensures
            plan_of(r) == units_plan(self.units@),
    {
        let mut value: Vec<BluePrint> = Vec::new();
        let mut i: usize = 0;
        while i < self.units.len()
            invariant
                i <= self.units@.len(),
                value@.len() == i,
                forall|j: int| 0 <= j < i ==> plan_of(#[trigger] value@[j]) == unit_plan(self.units@[j]),
            decreases self.units@.len() - i,
        {
            value.push(self.units[i].blueprints());
            i = i + 1;
        }
        let r = BluePrint::Collection { unit: COMPOUND, value };
        proof {
            assert(plans_of(value@) =~= match units_plan(self.units@) {
                Plan::Group { items, .. } => items,
                _ => Seq::empty(),
            });
            assert(plans_of(value@) =~= match plan_of(r) {
                Plan::Group { items, .. } => items,
                _ => Seq::empty(),
            });
        }
        r
    }
}

/// The version of the control block that this library writes and the newest
/// that it reads.
pub const CONTROL_VERSION: u8 = 1;

/// The bytes of a control block: its version, its units, its values.
pub open spec fn control_bytes(units: Seq<Unit>, values: ValuesPlan) -> Seq<u8> {
    seq![CONTROL_VERSION] + (counted_bytes(units, unit_writer()) + values_bytes(values))
}

/// Reads a control block: its version, which must not be newer than this
/// library's, its units and its values.
#[verifier::opaque]
pub open spec fn parse_control(s: Seq<u8>) -> Parsed<(Seq<Unit>, ValuesPlan)> {
    match parse_u8(s) {
        Err(e) => Err(e),
        Ok((version, _)) => if version > CONTROL_VERSION {
            Err(LoadError::UnknownControlVersion)
        } else {
            match parse_counted(s.skip(1), unit_parser()) {
                Err(e) => Err(e),
                Ok((units, n)) => match parse_values(s.skip(1).skip(n as int)) {
                    Err(e) => Err(e),
                    Ok((values, m)) => Ok(((units, values), 1 + n + m)),
                },
            }
        },
    }
}

/// How far reading a control block from `s` gets before it fails.
pub open spec fn control_stop(s: Seq<u8>) -> nat {
    match parse_u8(s) {
        Err(_) => 0,
        Ok((version, _)) => if version > CONTROL_VERSION {
            1
        } else {
            match parse_counted(s.skip(1), unit_parser()) {
                Err(_) => 1 + counted_stop(s.skip(1), unit_parser(), unit_stopper()),
                Ok((_, n)) => 1 + n + values_stop(s.skip(1).skip(n as int)),
            }
        },
    }
}

/// The units that reading a control block appends before it fails: none
/// when its version is refused, else those its unit list gets through.
pub open spec fn control_units_prefix(s: Seq<u8>) -> Seq<Unit> {
    match parse_u8(s) {
        Ok((version, _)) => if version > CONTROL_VERSION {
            Seq::empty()
        } else {
            counted_prefix(s.skip(1), unit_parser())
        },
        Err(_) => Seq::empty(),
    }
}

/// The values that reading a control block over values `p` leaves when it
/// fails: once the version and every unit are read, what the values block
/// got through; else `p`.
pub open spec fn control_values_partial(p: ValuesPlan, s: Seq<u8>) -> ValuesPlan {
    match parse_u8(s) {
        Ok((version, _)) => if version > CONTROL_VERSION {
            p
        } else {
            match parse_counted(s.skip(1), unit_parser()) {
                Ok((_, n)) => values_partial(p, s.skip(1).skip(n as int)),
                Err(_) => p,
            }
        },
        Err(_) => p,
    }
}

#[verifier::spinoff_prover]
proof fn lemma_unit_list_roundtrip(units: Seq<Unit>, rest: Seq<u8>)
    requires
        units.len() <= u32::MAX,
    ensures
        parse_counted(counted_bytes(units, unit_writer()) + rest, unit_parser()) == Ok::<
            (Seq<Unit>, nat),
            LoadError,
        >((units, counted_bytes(units, unit_writer()).len())),
{
    assert forall|i: int, r: Seq<u8>|
        #![trigger unit_parser()(unit_writer()(units[i]) + r)]
        0 <= i < units.len() implies unit_parser()(unit_writer()(units[i]) + r) == Ok::<
            (Unit, nat),
            LoadError,
        >((units[i], unit_writer()(units[i]).len())) by {
        lemma_unit_roundtrip(units[i], r);
    }
    lemma_counted_roundtrip(units, rest, unit_parser(), unit_writer());
}

/// Reading back the bytes of a control block gives its units and values,
/// whatever follows them.
#[verifier::spinoff_prover]
pub proof fn lemma_control_roundtrip(units: Seq<Unit>, values: ValuesPlan, rest: Seq<u8>)
    requires
        units.len() <= u32::MAX,
        values_wf(values),
    ensures
        parse_control(control_bytes(units, values) + rest) == Ok::<
            ((Seq<Unit>, ValuesPlan), nat),
            LoadError,
        >(((units, values), control_bytes(units, values).len())),
{
    reveal(parse_control);
    let ub = counted_bytes(units, unit_writer());
    let vb = values_bytes(values);
    assert(control_bytes(units, values).len() == 1 + ub.len() + vb.len());
    let s = control_bytes(units, values) + rest;
    assert(s == seq![CONTROL_VERSION] + (ub + (vb + rest))) by {
        lemma_concat_associative(ub, vb, rest);
        lemma_concat_associative(seq![CONTROL_VERSION], ub + vb, rest);
    }
    lemma_skip_add(seq![CONTROL_VERSION], ub + (vb + rest), 0);
    lemma_skip_add(ub, vb + rest, 0);
    lemma_unit_list_roundtrip(units, vb + rest);
    lemma_values_roundtrip(values, rest);
}

/// An actor's mind: its units and their working memory.
pub struct Control {
    pub units: Units,
    pub values: Values,
}

impl Default for Control {
    fn default() -> (r: Self)
        ensures
            r.units.units@ == Seq::<Unit>::empty(),
            values_plan(r.values) == (ValuesPlan {
                values: Seq::empty(),
                credits: 0,
                birth: false,
                birthcredits: Seq::empty(),
                seeds: Seq::empty(),
            }),
    {
        Control { units: Units::default(), values: Values::default() }
    }
}

impl Control {
    fn version(&self) -> (r: u8)
        ensures
            r == CONTROL_VERSION,
    {
        CONTROL_VERSION
    }

    /// Builds the units of the control blueprint `bp` and appends them.
    pub fn new(&mut self, bp: &BluePrint)
        requires
            control_units_defined(plan_of(*bp)),
            control_units(plan_of(*bp)).1 is None,
        ensures
            final(self).units.units@ == old(self).units.units@ + control_units(plan_of(*bp)).0,
            final(self).values == old(self).values,
    {
        self.units.new(bp).unwrap();
    }

    /// Reads a control block: appends its units, as each is read, and reads
    /// its values. On an error what was read before it stays: the units read
    /// before it, and the parts of the values read before it; a refused
    /// version takes only its byte.
    pub fn load_1(&mut self, source: &mut Reader) -> (r: Result<(), LoadError>)
        ensures
            final(source).data() == old(source).data(),
            final(source).pos() <= final(source).data().len(),
            match parse_control(old(source).rest()) {
                Ok(((us, vp), n)) => r is Ok && final(self).units.units@ == old(self).units.units@
                    + us && values_plan(final(self).values) == vp && final(source).pos() == old(
                    source,
                ).pos() + n,
                Err(e) => r == Err::<(), LoadError>(e) && final(self).units.units@ == old(
                    self,
                ).units.units@ + control_units_prefix(old(source).rest()) && values_plan(
                    final(self).values,
                ) == control_values_partial(values_plan(old(self).values), old(source).rest()),
            },
            newer_than(old(source).rest(), CONTROL_VERSION) ==> final(source).pos() == old(
                source,
            ).pos() + 1,
            r is Err ==> final(source).pos() == old(source).pos() + control_stop(old(source).rest()),
    {
        let ghost s0 = source.rest();
        proof {
            reveal(parse_control);
        }
        let version = match source.u8() {
            Ok(v) => v,
            Err(e) => {
                assert(old(self).units.units@ + Seq::<Unit>::empty() =~= old(self).units.units@);
                return Err(e);
            },
        };
        if version > self.version() {
            assert(old(self).units.units@ + Seq::<Unit>::empty() =~= old(self).units.units@);
            return Err(LoadError::UnknownControlVersion);
        }
        assert(source.rest() =~= s0.skip(1));
        let ghost p1 = source.pos();
        self.units.load(source)?;
        assert(source.rest() =~= s0.skip(1).skip(source.pos() - p1));
        self.values.load(source)?;
        Ok(())
    }

    /// Writes the control block in the form that `load_1` reads.
    pub fn save_1(&self, target: &mut Writer)
        ensures
            final(target)@ == old(target)@ + control_bytes(
                self.units.units@,
                values_plan(self.values),
            ),
    {
        target.u8(self.version());
        self.units.save(target);
        self.values.save(target);
        assert(target@ =~= old(target)@ + control_bytes(
            self.units.units@,
            values_plan(self.values),
        ));
    }
}

/// A seed with the given credits and an empty compound blueprint.
pub open spec fn fresh_seed(credits: u32) -> SeedPlan {
    SeedPlan { credits, plan: Plan::Group { unit: COMPOUND, items: Seq::empty() } }
}

impl BirthCredit {
    /// Sets credits aside for a child: of the `drawn` giveaway, what the body
    /// can spare is moved into its reserve, and, if any, becomes a new seed.
    pub fn tick(&self, drawn: u32, values: &mut Values, body: &mut Body)
        ensures
            ({
                let g = available(available(old(body).credits, old(body).reserve), drawn);
                &&& final(body).reserve == old(body).reserve + g
                &&& final(body).credits == old(body).credits
                &&& final(body).id == old(body).id
                &&& final(body).home == old(body).home
                &&& final(body).inside == old(body).inside
                &&& final(values).values == old(values).values
                &&& final(values).credits == old(values).credits
                &&& final(values).birth == old(values).birth
                &&& final(values).seeds == old(values).seeds
                &&& seeds_plan(final(values).birthcredits@) == if g > 0 {
                    seeds_plan(old(values).birthcredits@).push(fresh_seed(g))
                } else {
                    seeds_plan(old(values).birthcredits@)
                }
            }),
    {
        let giveaway = body.take_credits(drawn);
        if giveaway > 0 {
            let seed = Seed::new(giveaway);
            proof {
                assert(plan_of(seed.blueprints)->items =~= Seq::<Plan>::empty());
                assert(seed_plan(seed) == fresh_seed(giveaway));
            }
            values.birthcredits.push_back(seed);
            assert(seeds_plan(values.birthcredits@) =~= seeds_plan(old(values).birthcredits@).push(
                fresh_seed(giveaway),
            ));
        }
    }
}

impl ChildMaker {
    /// Takes the seed waiting longest for a blueprint and gives it the
    /// blueprint of the units; the application varies that blueprint and
    /// queues the seed to be born.
    pub fn take_seed(&self, units: &Units, values: &mut Values) -> (r: Option<Seed>)
        ensures
            final(values).values == old(values).values,
            final(values).credits == old(values).credits,
            final(values).birth == old(values).birth,
            final(values).seeds == old(values).seeds,
            old(values).birthcredits@.len() == 0 ==> r is None && final(values).birthcredits
                == old(values).birthcredits,
            old(values).birthcredits@.len() > 0 ==> {
                &&& r matches Some(seed) && seed.credits == old(values).birthcredits@[0].credits
                    && plan_of(seed.blueprints) == units_plan(units.units@)
                &&& final(values).birthcredits@ == old(values).birthcredits@.drop_first()
            },
    {
        if values.birthcredits.len() == 0 {
            return None;
        }
        let mut seed = values.birthcredits.pop_front().unwrap();
        seed.blueprints = units.blueprints();
        assert(values.birthcredits@ =~= old(values).birthcredits@.drop_first());
        Some(seed)
    }
}

/// What a spawner asks of a body with `credits` for the seeds, in order: the
/// credits left, and for each seed whose credits are below the body's credits
/// at its turn, a child with those credits grown from the seed's blueprint
/// bytes.
pub open spec fn spawn_requests(credits: u32, seeds: Seq<SeedPlan>) -> (u32, Seq<(u32, Seq<u8>)>)
    decreases seeds.len(),
{
    if seeds.len() == 0 {
        (credits, Seq::empty())
    } else {
        let first = seeds[0];
        let (c1, r1) = if first.credits < credits {
            ((credits - first.credits) as u32, seq![(first.credits, plan_bytes(first.plan))])
        } else {
            (credits, Seq::<(u32, Seq<u8>)>::empty())
        };
        let (c2, r2) = spawn_requests(c1, seeds.drop_first());
        (c2, r1 + r2)
    }
}

/// The requests `inside` holds from position `start` on are those of
/// `reqs`, in order.
pub open spec fn requests_made(inside: Seq<ActorInside>, start: int, reqs: Seq<(u32, Seq<u8>)>) -> bool {
    &&& inside.len() == start + reqs.len()
    &&& forall|j: int|
        0 <= j < reqs.len() ==> ((#[trigger] inside[start + j]) matches ActorInside::Make {
            credits,
            startup,
        } && credits == reqs[j].0 && startup@ == reqs[j].1)
}

/// Every child a spawner asks for is paid for and can be built: its
/// credits are those of one of the seeds, below what the body had left at
/// that point, and its startup reads back, as a blueprint using all of it,
/// as that seed's blueprint. The body is left with its credits less those of
/// every child asked for.
pub proof fn lemma_spawn_requests(credits: u32, seeds: Seq<SeedPlan>)
    requires
        forall|k: int| 0 <= k < seeds.len() ==> plan_wf(#[trigger] seeds[k].plan),
    ensures
        ({
            let (left, reqs) = spawn_requests(credits, seeds);
            &&& forall|j: int|
                0 <= j < reqs.len() ==> exists|k: int|
                    0 <= k < seeds.len() && (#[trigger] reqs[j]).0 == seeds[k].credits && parse_plan(
                        reqs[j].1,
                    ) == Ok::<(Plan, nat), LoadError>((seeds[k].plan, reqs[j].1.len()))
            &&& left + requested(reqs) == credits
            &&& forall|j: int| 0 <= j < reqs.len() ==> (#[trigger] reqs[j]).0 <= credits
        }),
    decreases seeds.len(),
{
    if seeds.len() > 0 {
        let first = seeds[0];
        let rest = seeds.drop_first();
        assert forall|k: int| 0 <= k < rest.len() implies plan_wf(#[trigger] rest[k].plan) by {
            assert(rest[k] == seeds[k + 1]);
        }
        let (c1, r1) = if first.credits < credits {
            ((credits - first.credits) as u32, seq![(first.credits, plan_bytes(first.plan))])
        } else {
            (credits, Seq::<(u32, Seq<u8>)>::empty())
        };
        lemma_spawn_requests(c1, rest);
        let (c2, r2) = spawn_requests(c1, rest);
        let reqs = r1 + r2;
        assert(spawn_requests(credits, seeds) == (c2, reqs));
        lemma_plan_roundtrip(first.plan, Seq::empty());
        assert(plan_bytes(first.plan) + Seq::<u8>::empty() =~= plan_bytes(first.plan));
        lemma_requested_concat(r1, r2);
        if first.credits < credits {
            assert(r1.drop_first() =~= Seq::<(u32, Seq<u8>)>::empty());
            assert(requested(r1.drop_first()) == 0);
            assert(r1[0].0 == first.credits);
            assert(requested(r1) == first.credits);
        } else {
            assert(requested(r1) == 0);
        }
        assert(c2 + requested(reqs) == credits);
        assert forall|j: int| 0 <= j < reqs.len() implies exists|k: int|
            0 <= k < seeds.len() && (#[trigger] reqs[j]).0 == seeds[k].credits && parse_plan(
                reqs[j].1,
            ) == Ok::<(Plan, nat), LoadError>((seeds[k].plan, reqs[j].1.len())) by {
            if j < r1.len() {
                assert(reqs[j] == r1[j]);
                assert(seeds[0] == first);
            } else {
                assert(reqs[j] == r2[j - r1.len()]);
                let k = choose|k: int|
                    0 <= k < rest.len() && r2[j - r1.len()].0 == rest[k].credits && parse_plan(
                        r2[j - r1.len()].1,
                    ) == Ok::<(Plan, nat), LoadError>((rest[k].plan, r2[j - r1.len()].1.len()));
                assert(rest[k] == seeds[k + 1]);
            }
        }
        assert forall|j: int| 0 <= j < reqs.len() implies (#[trigger] reqs[j]).0 <= credits by {
            if j < r1.len() {
                assert(reqs[j] == r1[j]);
            } else {
                assert(reqs[j] == r2[j - r1.len()]);
            }
        }
    }
}

/// What a spawner leaves in a body's requests: every request it adds is a
/// child with the credits of one of the seeds and a startup that reads back,
/// using all of it, as that seed's blueprint.
pub proof fn lemma_spawner_children(
    inside: Seq<ActorInside>,
    start: int,
    credits: u32,
    seeds: Seq<SeedPlan>,
)
    requires
        forall|k: int| 0 <= k < seeds.len() ==> plan_wf(#[trigger] seeds[k].plan),
        requests_made(inside, start, spawn_requests(credits, seeds).1),
    ensures
        forall|j: int|
            start <= j < inside.len() ==> (#[trigger] inside[j] matches ActorInside::Make {
                credits: c,
                startup,
            } && exists|k: int|
                0 <= k < seeds.len() && c == seeds[k].credits && parse_plan(startup@) == Ok::<
                    (Plan, nat),
                    LoadError,
                >((seeds[k].plan, startup@.len()))),
{
    lemma_spawn_requests(credits, seeds);
    let reqs = spawn_requests(credits, seeds).1;
    assert forall|j: int| start <= j < inside.len() implies (#[trigger] inside[j] matches ActorInside::Make {
        credits: c,
        startup,
    } && exists|k: int|
        0 <= k < seeds.len() && c == seeds[k].credits && parse_plan(startup@) == Ok::<
            (Plan, nat),
            LoadError,
        >((seeds[k].plan, startup@.len()))) by {
        let jj = j - start;
        assert(inside[start + jj] == inside[j]);
        assert(reqs[jj] == reqs[jj]);
    }
}

/// The credits asked for by requests, in all.
pub open spec fn requested(reqs: Seq<(u32, Seq<u8>)>) -> nat
    decreases reqs.len(),
{
    if reqs.len() == 0 {
        0
    } else {
        reqs[0].0 as nat + requested(reqs.drop_first())
    }
}

proof fn lemma_requested_concat(a: Seq<(u32, Seq<u8>)>, b: Seq<(u32, Seq<u8>)>)
    ensures
        requested(a + b) == requested(a) + requested(b),
    decreases a.len(),
{
    if a.len() > 0 {
        lemma_requested_concat(a.drop_first(), b);
        assert((a + b).drop_first() =~= a.drop_first() + b);
    } else {
        assert(a + b =~= b);
    }
}

impl Spawner {
    /// Asks the body for a child from every seed ready to be born, in order,
    /// each with its credits and its blueprint's bytes; empties the seeds.
    pub fn tick(&self, values: &mut Values, body: &mut Body)
        ensures
            final(values).values == old(values).values,
            final(values).credits == old(values).credits,
            final(values).birth == old(values).birth,
            final(values).birthcredits == old(values).birthcredits,
            final(values).seeds@.len() == 0,
            final(body).id == old(body).id,
            final(body).home == old(body).home,
            final(body).reserve == old(body).reserve,
            ({
                let (c, reqs) = spawn_requests(old(body).credits, seeds_plan(old(values).seeds@));
                &&& final(body).credits == c
                &&& final(body).inside@.take(old(body).inside@.len() as int) == old(body).inside@
                &&& requests_made(final(body).inside@, old(body).inside@.len() as int, reqs)
            }),
    {
        let ghost all = seeds_plan(values.seeds@);
        let ghost start = body.inside@.len() as int;
        let ghost mut done: Seq<(u32, Seq<u8>)> = Seq::empty();
        proof {
            let (c, r) = spawn_requests(body.credits, all);
            assert(done + r =~= r);
            assert(body.inside@.take(start) =~= old(body).inside@);
        }
        while values.seeds.len() > 0
            invariant
                values.values == old(values).values,
                values.credits == old(values).credits,
                values.birth == old(values).birth,
                values.birthcredits == old(values).birthcredits,
                body.id == old(body).id,
                body.home == old(body).home,
                body.reserve == old(body).reserve,
                all == seeds_plan(old(values).seeds@),
                start == old(body).inside@.len(),
                body.inside@.take(start) == old(body).inside@,
                requests_made(body.inside@, start, done),
                spawn_requests(old(body).credits, all) == ({
                    let (c, r) = spawn_requests(body.credits, seeds_plan(values.seeds@));
                    (c, done + r)
                }),
            decreases values.seeds@.len(),
        {
            let ghost remaining = seeds_plan(values.seeds@);
            let seed = values.seeds.pop_front().unwrap();
            let mut bytes = Writer::new();
            seed.blueprints.save(&mut bytes);
            let startup = bytes.into_bytes();
            let ghost credits_before = body.credits;
            let ghost inside_before = body.inside@;
            proof {
                assert(remaining[0] == seed_plan(seed));
                assert(remaining.drop_first() =~= seeds_plan(values.seeds@));
            }
            body.birth(seed.credits, startup);
            proof {
                let (c2, r2) = spawn_requests(body.credits, seeds_plan(values.seeds@));
                if seed.credits < credits_before {
                    let req = seq![(seed.credits, plan_bytes(plan_of(seed.blueprints)))];
                    assert(done + (req + r2) =~= (done + req) + r2);
                    done = done + req;
                    assert(body.inside@.take(start) =~= inside_before.take(start));
                    assert forall|j: int| 0 <= j < done.len() implies ((#[trigger] body.inside@[start
                        + j]) matches ActorInside::Make { credits, startup } && credits == done[j].0
                        && startup@ == done[j].1) by {
                        if j < done.len() - 1 {
                            assert(body.inside@[start + j] == inside_before[start + j]);
                        }
                    }
                } else {
                    assert(Seq::<(u32, Seq<u8>)>::empty() + r2 =~= r2);
                }
            }
        }
        proof {
            let (c, r) = spawn_requests(body.credits, seeds_plan(values.seeds@));
            assert(seeds_plan(values.seeds@).len() == 0);
            assert(done + r =~= done);
        }
    }
}

} // verus!
