//! Blueprints: the recipe from which an actor's control units are built,
//! and its binary form.
use crate::bytes::{lemma_u16_roundtrip, lemma_u32_roundtrip, u16_le, u16_of_le, u32_le, u32_of_le};
use crate::storage::{parse_u16, parse_u32, parse_u8, LoadError, Parsed, Reader, Writer};
use vstd::prelude::*;

verus! {

/// A blueprint: a float parameter, an integer parameter, or a collection of
/// blueprints tagged with a unit type. A float travels as its IEEE-754 bit
/// pattern.
#[derive(Debug)]
pub enum BluePrint {
    FValue { value: u32 },
    UValue { value: u32 },
    Collection { unit: u16, value: Vec<BluePrint> },
}

/// The mathematical content of a blueprint.
pub enum Plan {
    Float { bits: u32 },
    Int { value: u32 },
    Group { unit: u16, items: Seq<Plan> },
}

/// The plan that a blueprint holds.
pub open spec fn plan_of(b: BluePrint) -> Plan
    decreases b,
{
    match b {
        BluePrint::FValue { value } => Plan::Float { bits: value },
        BluePrint::UValue { value } => Plan::Int { value },
        BluePrint::Collection { unit, value } => Plan::Group {
            unit,
            items: Seq::new(
                value@.len(),
                |i: int|
                    if 0 <= i < value@.len() {
                        plan_of(value@[i])
                    } else {
                        Plan::Int { value: 0 }
                    },
            ),
        },
    }
}

/// The plans of a run of blueprints.
pub open spec fn plans_of(v: Seq<BluePrint>) -> Seq<Plan> {
    Seq::new(v.len(), |i: int| plan_of(v[i]))
}

/// The integer at `index` of a collection plan.
pub open spec fn param_u32(p: Plan, index: int) -> Result<u32, LoadError> {
    match p {
        Plan::Group { items, .. } => match items[index] {
            Plan::Int { value } => Ok(value),
            _ => Err(LoadError::U32Required),
        },
        _ => Err(LoadError::CollectionRequired),
    }
}

/// The float bits at `index` of a collection plan.
pub open spec fn param_f32(p: Plan, index: int) -> Result<u32, LoadError> {
    match p {
        Plan::Group { items, .. } => match items[index] {
            Plan::Float { bits } => Ok(bits),
            _ => Err(LoadError::F32Required),
        },
        _ => Err(LoadError::CollectionRequired),
    }
}

/// The number of items of a collection plan; none for a parameter.
pub open spec fn plan_len(p: Plan) -> int {
    match p {
        Plan::Group { items, .. } => items.len() as int,
        _ => 0,
    }
}

/// Unit type of the collection that groups an actor's units.
pub const COMPOUND: u16 = 1;

/// Tag of a float blueprint.
pub const FVALUE: u8 = 1;

/// Tag of an integer blueprint.
pub const UVALUE: u8 = 2;

/// Tag of a collection blueprint.
pub const COLLECTION: u8 = 3;

/// The bytes of a plan: its tag, then a float's bits or an integer, or a
/// collection's unit type, item count and items.
pub open spec fn plan_bytes(p: Plan) -> Seq<u8>
    decreases p,
{
    match p {
        Plan::Float { bits } => seq![FVALUE] + u32_le(bits),
        Plan::Int { value } => seq![UVALUE] + u32_le(value),
        Plan::Group { unit, items } => seq![COLLECTION] + u16_le(unit) + u32_le(
            items.len() as u32,
        ) + plans_bytes(items),
    }
}

/// The bytes of a run of plans, one after the other.
pub open spec fn plans_bytes(items: Seq<Plan>) -> Seq<u8>
    decreases items,
{
    if items.len() == 0 {
        Seq::empty()
    } else {
        plan_bytes(items[0]) + plans_bytes(items.drop_first())
    }
}

/// A plan whose every collection has at most `u32::MAX` items, so that its
/// bytes record each count exactly.
pub open spec fn plan_wf(p: Plan) -> bool
    decreases p,
{
    match p {
        Plan::Group { items, .. } => items.len() <= u32::MAX && plans_wf(items),
        _ => true,
    }
}

pub open spec fn plans_wf(items: Seq<Plan>) -> bool
    decreases items,
{
    items.len() == 0 || (plan_wf(items[0]) && plans_wf(items.drop_first()))
}

/// The first byte of `s` is none of the blueprint tags.
pub open spec fn unknown_tag(s: Seq<u8>) -> bool {
    parse_u8(s) matches Ok((tag, _)) && tag != FVALUE && tag != UVALUE && tag != COLLECTION
}

/// Reads a plan from the front of `s`.
pub open spec fn parse_plan(s: Seq<u8>) -> Parsed<Plan>
    decreases s.len(), 0nat,
{
    match parse_u8(s) {
        Err(e) => Err(e),
        Ok((tag, _)) => {
            let body = s.skip(1);
            if tag == FVALUE {
                match parse_u32(body) {
                    Ok((v, n)) => Ok((Plan::Float { bits: v }, 1 + n)),
                    Err(e) => Err(e),
                }
            } else if tag == UVALUE {
                match parse_u32(body) {
                    Ok((v, n)) => Ok((Plan::Int { value: v }, 1 + n)),
                    Err(e) => Err(e),
                }
            } else if tag == COLLECTION {
                match parse_u16(body) {
                    Err(e) => Err(e),
                    Ok((unit, _)) => match parse_u32(body.skip(2)) {
                        Err(e) => Err(e),
                        Ok((count, _)) => match parse_plans(s.skip(7), count as nat) {
                            Ok((items, n)) => Ok((Plan::Group { unit, items }, 7 + n)),
                            Err(e) => Err(e),
                        },
                    },
                }
            } else {
                Err(LoadError::UnknownUnit)
            }
        },
    }
}

/// Reads `count` plans, one after the other, from the front of `s`.
pub open spec fn parse_plans(s: Seq<u8>, count: nat) -> Parsed<Seq<Plan>>
    decreases s.len(), count + 1,
{
    if count == 0 {
        Ok((Seq::empty(), 0))
    } else {
        match parse_plan(s) {
            Err(e) => Err(e),
            Ok((p, k)) => if k <= s.len() {
                match parse_plans(s.skip(k as int), (count - 1) as nat) {
                    Ok((ps, m)) => Ok((seq![p] + ps, k + m)),
                    Err(e) => Err(e),
                }
            } else {
                Err(LoadError::UnexpectedEof)
            },
        }
    }
}

/// How far reading a plan from `s` gets before it fails: past the tag for a
/// bad value or tag, and for a collection past its header and the items read
/// before the one that fails.
pub open spec fn plan_stop(s: Seq<u8>) -> nat
    decreases s.len(), 0nat,
{
    match parse_u8(s) {
        Err(_) => 0,
        Ok((tag, _)) => if tag == COLLECTION {
            match parse_u16(s.skip(1)) {
                Err(_) => 1,
                Ok(_) => match parse_u32(s.skip(1).skip(2)) {
                    Err(_) => 3,
                    Ok((count, _)) => 7 + plans_stop(s.skip(7), count as nat),
                },
            }
        } else {
            1
        },
    }
}

/// How far reading `count` plans from `s` gets before one fails.
pub open spec fn plans_stop(s: Seq<u8>, count: nat) -> nat
    decreases s.len(), count + 1,
{
    if count == 0 {
        0
    } else {
        match parse_plan(s) {
            Err(_) => plan_stop(s),
            Ok((_, k)) => if k <= s.len() {
                k + plans_stop(s.skip(k as int), (count - 1) as nat)
            } else {
                0
            },
        }
    }
}

/// Reading back the bytes of a plan gives the plan, and takes exactly its
/// bytes, whatever follows them.
#[verifier::spinoff_prover]
pub proof fn lemma_plan_roundtrip(p: Plan, rest: Seq<u8>)
    requires
        plan_wf(p),
    ensures
        parse_plan(plan_bytes(p) + rest) == Ok::<(Plan, nat), LoadError>((p, plan_bytes(p).len())),
    decreases p,
{
    let s = plan_bytes(p) + rest;
    match p {
        Plan::Float { bits } => {
            lemma_u32_roundtrip(bits, rest);
            assert(s.skip(1) =~= u32_le(bits) + rest);
        },
        Plan::Int { value } => {
            lemma_u32_roundtrip(value, rest);
            assert(s.skip(1) =~= u32_le(value) + rest);
        },
        Plan::Group { unit, items } => {
            let n = items.len() as u32;
            let tail = plans_bytes(items) + rest;
            lemma_u16_roundtrip(unit, u32_le(n) + tail);
            lemma_u32_roundtrip(n, tail);
            assert(s.skip(1) =~= u16_le(unit) + (u32_le(n) + tail));
            assert(s.skip(1).skip(2) =~= u32_le(n) + tail);
            assert(s.skip(7) =~= tail);
            lemma_plans_roundtrip(items, rest);
        },
    }
}

/// Reading back the bytes of a run of plans, with its count, gives the run.
#[verifier::spinoff_prover]
pub proof fn lemma_plans_roundtrip(items: Seq<Plan>, rest: Seq<u8>)
    requires
        plans_wf(items),
    ensures
        parse_plans(plans_bytes(items) + rest, items.len()) == Ok::<(Seq<Plan>, nat), LoadError>(
            (items, plans_bytes(items).len()),
        ),
    decreases items,
{
    if items.len() == 0 {
        assert(plans_bytes(items) + rest =~= rest);
        assert(items =~= Seq::<Plan>::empty());
    } else {
        let first = items[0];
        let others = items.drop_first();
        let s = plans_bytes(items) + rest;
        lemma_plan_roundtrip(first, plans_bytes(others) + rest);
        assert(s =~= plan_bytes(first) + (plans_bytes(others) + rest));
        assert(s.skip(plan_bytes(first).len() as int) =~= plans_bytes(others) + rest);
        lemma_plans_roundtrip(others, rest);
        assert(seq![first] + others =~= items);
        assert(plans_bytes(items) == plan_bytes(first) + plans_bytes(others));
        assert(parse_plan(s) == Ok::<(Plan, nat), LoadError>((first, plan_bytes(first).len())));
        assert(parse_plans(s.skip(plan_bytes(first).len() as int), (items.len() - 1) as nat)
            == Ok::<(Seq<Plan>, nat), LoadError>((others, plans_bytes(others).len())));
    }
}

/// The bytes of a run of plans grow by the bytes of each plan appended.
pub proof fn lemma_plans_bytes_push(items: Seq<Plan>, p: Plan)
    ensures
        plans_bytes(items.push(p)) == plans_bytes(items) + plan_bytes(p),
    decreases items.len(),
{
    if items.len() == 0 {
        assert(items.push(p).drop_first() =~= Seq::<Plan>::empty());
        assert(plans_bytes(items.push(p).drop_first()) == Seq::<u8>::empty());
        assert(plans_bytes(items) == Seq::<u8>::empty());
        assert(plans_bytes(items.push(p)) =~= plans_bytes(items) + plan_bytes(p));
    } else {
        lemma_plans_bytes_push(items.drop_first(), p);
        let q = items.push(p);
        assert(q.drop_first() =~= items.drop_first().push(p));
        assert(q[0] == items[0]);
        assert(plans_bytes(q) == plan_bytes(items[0]) + plans_bytes(items.drop_first().push(p)));
        assert(plans_bytes(items) == plan_bytes(items[0]) + plans_bytes(items.drop_first()));
        assert(plans_bytes(q) =~= plans_bytes(items) + plan_bytes(p));
    }
}

impl BluePrint {
    /// Reads a blueprint: its tag, then a float's bits, an integer, or a
    /// collection's unit type, item count and items.
    pub fn load(source: &mut Reader) -> (r: Result<BluePrint, LoadError>)
        ensures
            final(source).data() == old(source).data(),
            final(source).pos() <= final(source).data().len(),
            match parse_plan(old(source).rest()) {
                Ok((p, n)) => r matches Ok(b) && plan_of(b) == p && final(source).pos() == old(
                    source,
                ).pos() + n,
                Err(e) => r == Err::<BluePrint, LoadError>(e),
            },
            unknown_tag(old(source).rest()) ==> final(source).pos() == old(source).pos() + 1,
            r is Err ==> final(source).pos() == old(source).pos() + plan_stop(old(source).rest()),
        decreases old(source).rest().len(),
    {
        let ghost s0 = source.rest();
        let ghost p0 = source.pos();
        let tag = source.u8()?;
        if tag == FVALUE {
            assert(source.rest() =~= s0.skip(1));
            let value = source.float_bits()?;
            Ok(BluePrint::FValue { value })
        } else if tag == UVALUE {
            assert(source.rest() =~= s0.skip(1));
            let value = source.u32()?;
            Ok(BluePrint::UValue { value })
        } else if tag == COLLECTION {
            assert(source.rest() =~= s0.skip(1));
            let unit = source.u16()?;
            assert(source.rest() =~= s0.skip(1).skip(2));
            let count = source.count()?;
            assert(source.rest() =~= s0.skip(7));
            let ghost s7 = source.rest();
            let ghost p7 = source.pos();
            let mut value: Vec<BluePrint> = Vec::new();
            let mut i: u32 = 0;
            while i < count
                invariant
                    source.data() == old(source).data(),
                    p0 + 7 == p7 <= source.pos() <= source.data().len(),
                    p0 == old(source).pos(),
                    s7 == old(source).data().skip(p7 as int),
                    s0 == old(source).rest(),
                    s7 == s0.skip(7),
                    parse_u8(s0) == Ok::<(u8, nat), LoadError>((COLLECTION, 1)),
                    parse_u16(s0.skip(1)) == Ok::<(u16, nat), LoadError>((unit, 2)),
                    parse_u32(s0.skip(1).skip(2)) == Ok::<(u32, nat), LoadError>((count, 4)),
                    old(source).rest().len() == old(source).data().len() - p0,
                    i <= count,
                    value@.len() == i,
                    parse_plans(s7, count as nat) == match parse_plans(
                        source.rest(),
                        (count - i) as nat,
                    ) {
                        Ok((ps, m)) => Ok((plans_of(value@) + ps, ((source.pos() - p7) + m) as nat)),
                        Err(e) => Err(e),
                    },
                    plans_stop(s7, count as nat) == (source.pos() - p7) + plans_stop(
                        source.rest(),
                        (count - i) as nat,
                    ),
                decreases count - i,
            {
                let ghost before = *source;
                let bp = match BluePrint::load(source) {
                    Ok(b) => b,
                    Err(e) => {
                        proof {
                            assert(parse_plan(before.rest()) is Err);
                            assert(plans_stop(before.rest(), (count - i) as nat) == plan_stop(
                                before.rest(),
                            ));
                            assert(plan_stop(s0) == 7 + plans_stop(s7, count as nat));
                        }
                        return Err(e);
                    },
                };
                proof {
                    let c = (count - i) as nat;
                    let k = (source.pos() - before.pos()) as nat;
                    assert(before.rest().skip(k as int) =~= source.rest());
                    assert(plans_stop(before.rest(), c) == k + plans_stop(source.rest(), (c - 1) as nat));
                    assert(plans_of(value@.push(bp)) =~= plans_of(value@).push(plan_of(bp)));
                    assert(parse_plans(before.rest(), c) == match parse_plans(
                        source.rest(),
                        (c - 1) as nat,
                    ) {
                        Ok((ps, m)) => Ok((seq![plan_of(bp)] + ps, (k + m) as nat)),
                        Err(e) => Err::<(Seq<Plan>, nat), LoadError>(e),
                    });
                    match parse_plans(source.rest(), (c - 1) as nat) {
                        Ok((ps, m)) => {
                            assert(plans_of(value@).push(plan_of(bp)) + ps =~= plans_of(value@)
                                + (seq![plan_of(bp)] + ps));
                        },
                        Err(e) => {},
                    }
                }
                value.push(bp);
                i = i + 1;
            }
            proof {
                assert(plan_of(BluePrint::Collection { unit, value }) == Plan::Group {
                    unit,
                    items: plans_of(value@),
                }) by {
                    assert(plans_of(value@) =~= match plan_of(
                        BluePrint::Collection { unit, value },
                    ) {
                        Plan::Group { items, .. } => items,
                        _ => Seq::empty(),
                    });
                }
                assert(plans_of(value@) + Seq::<Plan>::empty() =~= plans_of(value@));
            }
            Ok(BluePrint::Collection { unit, value })
        } else {
            Err(LoadError::UnknownUnit)
        }
    }

    /// Writes the blueprint in the form that `load` reads.
    pub fn save(&self, target: &mut Writer)
        ensures
            final(target)@ == old(target)@ + plan_bytes(plan_of(*self)),
        decreases self,
    {
        match self {
            BluePrint::FValue { value } => {
                target.u8(FVALUE);
                target.float_bits(*value);
                assert(target@ =~= old(target)@ + plan_bytes(plan_of(*self)));
            },
            BluePrint::UValue { value } => {
                target.u8(UVALUE);
                target.u32(*value);
                assert(target@ =~= old(target)@ + plan_bytes(plan_of(*self)));
            },
            BluePrint::Collection { unit, value } => {
                target.u8(COLLECTION);
                target.u16(*unit);
                target.count(value.len());
                let ghost head = target@;
                assert(decreases_to!(*self => *value));
                let mut i: usize = 0;
                while i < value.len()
                    invariant
                        i <= value@.len(),
                        decreases_to!(*self => *value),
                        target@ == head + plans_bytes(plans_of(value@).take(i as int)),
                    decreases value@.len() - i,
                {
                    assert(decreases_to!(*value => value[i as int]));
                    value[i].save(target);
                    proof {
                        let ps = plans_of(value@);
                        assert(ps.take(i + 1) =~= ps.take(i as int).push(plan_of(value@[i as int])));
                        lemma_plans_bytes_push(ps.take(i as int), plan_of(value@[i as int]));
                    }
                    i = i + 1;
                }
                proof {
                    let ps = plans_of(value@);
                    assert(ps.take(value@.len() as int) =~= ps);
                    assert(plan_of(*self) == Plan::Group { unit: *unit, items: ps }) by {
                        assert(ps =~= match plan_of(*self) {
                            Plan::Group { items, .. } => items,
                            _ => Seq::empty(),
                        });
                    }
                    assert(target@ =~= old(target)@ + plan_bytes(plan_of(*self)));
                }
            },
        }
    }

    /// A collection blueprint of the given unit type.
    pub fn new(unit: u16, value: Vec<BluePrint>) -> (r: BluePrint)
        ensures
            r == (BluePrint::Collection { unit, value }),
    {
        BluePrint::Collection { unit, value }
    }

    /// The items of a collection.
    pub fn get_collection(&self) -> (r: Result<&[BluePrint], LoadError>)
        ensures
            match self {
                BluePrint::Collection { value, .. } => r matches Ok(items) && items@ == value@,
                _ => r == Err::<&[BluePrint], LoadError>(LoadError::CollectionRequired),
            },
    {
        match self {
            BluePrint::Collection { value, .. } => Ok(value.as_slice()),
            _ => Err(LoadError::CollectionRequired),
        }
    }

    /// The unit type of a collection.
    pub fn get_unit(&self) -> (r: Result<u16, LoadError>)
        ensures
            r == match self {
                BluePrint::Collection { unit, .. } => Ok(*unit),
                _ => Err::<u16, LoadError>(LoadError::CollectionRequired),
            },
    {
        match self {
            BluePrint::Collection { unit, .. } => Ok(*unit),
            _ => Err(LoadError::CollectionRequired),
        }
    }

    /// The bits of the float at `index` of a collection.
    pub fn get_f32(&self, index: usize) -> (r: Result<u32, LoadError>)
        requires
            plan_of(*self) is Group ==> index < plan_len(plan_of(*self)),
        ensures
            r == param_f32(plan_of(*self), index as int),
    {
        let items = self.get_collection()?;
        proof {
            lemma_item_plan(*self, index as int);
        }
        match &items[index] {
            BluePrint::FValue { value } => Ok(*value),
            _ => Err(LoadError::F32Required),
        }
    }

    /// The integer at `index` of a collection.
    pub fn get_u32(&self, index: usize) -> (r: Result<u32, LoadError>)
        requires
            plan_of(*self) is Group ==> index < plan_len(plan_of(*self)),
        ensures
            r == param_u32(plan_of(*self), index as int),
    {
        let items = self.get_collection()?;
        proof {
            lemma_item_plan(*self, index as int);
        }
        match &items[index] {
            BluePrint::UValue { value } => Ok(*value),
            _ => Err(LoadError::U32Required),
        }
    }
}

/// The plan of a collection holds the plans of its items.
proof fn lemma_item_plan(b: BluePrint, i: int)
    ensures
        b is Collection <==> plan_of(b) is Group,
        b matches BluePrint::Collection { value, .. } ==> {
            &&& plan_len(plan_of(b)) == value@.len()
            &&& (0 <= i < value@.len() ==> plan_of(b)->items[i] == plan_of(value@[i]))
        },
{
}

impl Default for BluePrint {
    /// An empty compound collection.
    fn default() -> (r: Self)
        ensures
            r matches BluePrint::Collection { unit, value } && unit == COMPOUND && value@.len() == 0,
    {
        BluePrint::Collection { unit: COMPOUND, value: Vec::new() }
    }
}

impl From<u32> for BluePrint {
    fn from(value: u32) -> (r: Self) {
        BluePrint::UValue { value }
    }
}

impl vstd::std_specs::convert::FromSpecImpl<u32> for BluePrint {
    open spec fn obeys_from_spec() -> bool {
        true
    }

    open spec fn from_spec(value: u32) -> Self {
        BluePrint::UValue { value }
    }
}

} // verus!
