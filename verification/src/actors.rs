//! Actors: a body that holds credits and asks for children, and the control
//! units that drive it.
use crate::blueprint::{parse_plan, BluePrint};
use crate::bytes::{lemma_u32_roundtrip, lemma_u64_roundtrip, u32_le, u64_le};
use crate::control::{
    control_bytes, control_stop, control_units, control_units_defined, lemma_control_roundtrip, parse_control,
    Control, Unit,
};
use crate::dispatcher::Dispatcher;
use crate::storage::{
    lemma_skip_add, parse_u32, parse_u64, read_into, LoadError, Parsed, Reader, Writer,
};
use crate::values::{values_plan, values_wf, ValuesPlan};
use vstd::seq_lib::lemma_concat_associative;
use vstd::prelude::*;

verus! {

/// What an actor tells the universe: that it died, or that it makes a child
/// with the given credits at its home, grown from the startup blueprint
/// bytes.
pub enum ActorLifecycle {
    Empty,
    Death { id: u64 },
    Make { parent: u64, credits: u32, home: u64, startup: Vec<u8> },
}

impl Default for ActorLifecycle {
    fn default() -> (r: Self)
        ensures
            r is Empty,
    {
        ActorLifecycle::Empty
    }
}

/// What an actor's control asks of its body: to make a child.
pub enum ActorInside {
    Empty,
    Make { credits: u32, startup: Vec<u8> },
}

impl Default for ActorInside {
    fn default() -> (r: Self)
        ensures
            r is Empty,
    {
        ActorInside::Empty
    }
}

/// The lifecycle messages that a body's pending requests turn into, in order:
/// each request to make a child becomes a request of the parent `id` at
/// `home`; an empty request is dropped.
pub open spec fn births_of(requests: Seq<ActorInside>, id: u64, home: u64) -> Seq<ActorLifecycle>
    decreases requests.len(),
{
    if requests.len() == 0 {
        Seq::empty()
    } else {
        let before = births_of(requests.drop_last(), id, home);
        match requests.last() {
            ActorInside::Make { credits, startup } => before.push(
                ActorLifecycle::Make { parent: id, credits, home, startup },
            ),
            ActorInside::Empty => before,
        }
    }
}

/// Handing on a body's requests announces no death.
pub proof fn lemma_births_no_deaths(requests: Seq<ActorInside>, id: u64, home: u64)
    ensures
        forall|k: int| 0 <= k < births_of(requests, id, home).len() ==> !(#[trigger] births_of(requests, id, home)[k] is Death),
    decreases requests.len(),
{
    if requests.len() > 0 {
        lemma_births_no_deaths(requests.drop_last(), id, home);
    }
}

/// The credits of an actor, a part of which may be held in reserve.
pub struct Body {
    pub id: u64,
    pub home: u64,
    pub credits: u32,
    pub reserve: u32,
    pub inside: Dispatcher<ActorInside>,
}

/// The credits of a body that are not held in reserve.
pub open spec fn available(credits: u32, reserve: u32) -> u32 {
    if credits >= reserve {
        (credits - reserve) as u32
    } else {
        0
    }
}

impl Default for Body {
    fn default() -> (r: Self)
        ensures
            r.id == 0 && r.home == 0 && r.credits == 0 && r.reserve == 0,
            r.inside@ == Seq::<ActorInside>::empty(),
    {
        Body { id: 0, home: 0, credits: 0, reserve: 0, inside: Dispatcher::new() }
    }
}

impl Body {
    /// The credits not held in reserve.
    pub fn get_credits(&self) -> (r: u32)
        ensures
            r == available(self.credits, self.reserve),
    {
        self.credits.saturating_sub(self.reserve)
    }

    /// Sets aside, in reserve, what is left of the available credits once
    /// `amount` is taken off them, and returns that part.
    pub fn take_credits(&mut self, amount: u32) -> (r: u32)
        ensures
            r == available(available(old(self).credits, old(self).reserve), amount),
            final(self).reserve == old(self).reserve + r,
            final(self).id == old(self).id,
            final(self).home == old(self).home,
            final(self).credits == old(self).credits,
            final(self).inside == old(self).inside,
    {
        let ret = self.get_credits().saturating_sub(amount);
        self.reserve = self.reserve + ret;
        ret
    }

    /// Asks for a child with `credits`, paid from this body's credits, when
    /// the body has more than that; otherwise does nothing.
    pub fn birth(&mut self, credits: u32, startup: Vec<u8>)
        ensures
            final(self).id == old(self).id,
            final(self).home == old(self).home,
            final(self).reserve == old(self).reserve,
            credits < old(self).credits ==> {
                &&& final(self).credits == old(self).credits - credits
                &&& final(self).inside@ == old(self).inside@.push(
                    ActorInside::Make { credits, startup },
                )
            },
            credits >= old(self).credits ==> {
                &&& final(self).credits == old(self).credits
                &&& final(self).inside@ == old(self).inside@
            },
    {
        if credits < self.credits {
            self.credits = self.credits - credits;
            self.inside.put(ActorInside::Make { credits, startup });
        }
    }

    /// Hands every pending request to make a child to the universe, as a
    /// request from this actor at its home, in order; empties the requests.
    pub fn tick(&mut self, outside: &mut Dispatcher<ActorLifecycle>)
        ensures
            final(self).id == old(self).id,
            final(self).home == old(self).home,
            final(self).credits == old(self).credits,
            final(self).reserve == old(self).reserve,
            final(self).inside@ == Seq::<ActorInside>::empty(),
            final(outside)@ == old(outside)@ + births_of(
                old(self).inside@,
                old(self).id,
                old(self).home,
            ),
    {
        let ghost pending = self.inside@;
        let ghost start = outside@;
        while self.inside.len() > 0
            invariant
                self.id == old(self).id,
                self.home == old(self).home,
                self.credits == old(self).credits,
                self.reserve == old(self).reserve,
                pending == old(self).inside@,
                start == old(outside)@,
                self.inside@.len() <= pending.len(),
                self.inside@ == pending.skip(pending.len() - self.inside@.len()),
                outside@ == start + births_of(
                    pending.take(pending.len() - self.inside@.len()),
                    self.id,
                    self.home,
                ),
            decreases self.inside@.len(),
        {
            let ghost done = (pending.len() - self.inside@.len()) as int;
            let message = self.inside.get();
            proof {
                assert(pending.take(done + 1).drop_last() =~= pending.take(done));
                assert(pending.take(done + 1).last() == pending[done]);
                assert(self.inside@ =~= pending.skip(done + 1));
            }
            match message {
                ActorInside::Make { credits, startup } => outside.put(
                    ActorLifecycle::Make { parent: self.id, credits, home: self.home, startup },
                ),
                _ => {},
            }
            proof {
                assert(outside@ =~= start + births_of(pending.take(done + 1), self.id, self.home));
            }
        }
        proof {
            assert(pending.take(pending.len() as int) =~= pending);
        }
    }
}

/// An actor: a body and the control that drives it.
pub struct Actor {
    pub body: Body,
    pub control: Control,
}

/// The content of an actor's record.
pub struct ActorPlan {
    pub id: u64,
    pub home: u64,
    pub credits: u32,
    pub reserve: u32,
    pub units: Seq<Unit>,
    pub values: ValuesPlan,
}

pub open spec fn actor_plan(a: Actor) -> ActorPlan {
    ActorPlan {
        id: a.body.id,
        home: a.body.home,
        credits: a.body.credits,
        reserve: a.body.reserve,
        units: a.control.units.units@,
        values: values_plan(a.control.values),
    }
}

/// The bytes of an actor's record: id, home, credits, reserve, control.
#[verifier::opaque]
pub open spec fn actor_bytes(p: ActorPlan) -> Seq<u8> {
    u64_le(p.id) + (u64_le(p.home) + (u32_le(p.credits) + (u32_le(p.reserve) + control_bytes(
        p.units,
        p.values,
    ))))
}

/// Reads an actor's record.
#[verifier::opaque]
pub open spec fn parse_actor(s: Seq<u8>) -> Parsed<ActorPlan> {
    match parse_u64(s) {
        Err(e) => Err(e),
        Ok((id, _)) => match parse_u64(s.skip(8)) {
            Err(e) => Err(e),
            Ok((home, _)) => match parse_u32(s.skip(16)) {
                Err(e) => Err(e),
                Ok((credits, _)) => match parse_u32(s.skip(20)) {
                    Err(e) => Err(e),
                    Ok((reserve, _)) => match parse_control(s.skip(24)) {
                        Err(e) => Err(e),
                        Ok(((units, values), n)) => Ok(
                            (ActorPlan { id, home, credits, reserve, units, values }, 24 + n),
                        ),
                    },
                },
            },
        },
    }
}

/// How far reading an actor's record from `s` gets before it fails: past
/// the fields read before the failure, and as far as its control gets.
pub open spec fn actor_stop(s: Seq<u8>) -> nat {
    if parse_u64(s) is Err {
        0
    } else if parse_u64(s.skip(8)) is Err {
        8
    } else if parse_u32(s.skip(16)) is Err {
        16
    } else if parse_u32(s.skip(20)) is Err {
        20
    } else {
        24 + control_stop(s.skip(24))
    }
}

pub open spec fn actor_parser() -> spec_fn(Seq<u8>) -> Parsed<ActorPlan> {
    |s: Seq<u8>| parse_actor(s)
}

pub open spec fn actor_writer() -> spec_fn(ActorPlan) -> Seq<u8> {
    |p: ActorPlan| actor_bytes(p)
}

/// An actor record holds at most `u32::MAX` units and a well-formed values
/// block.
pub open spec fn actor_wf(p: ActorPlan) -> bool {
    p.units.len() <= u32::MAX && values_wf(p.values)
}

#[verifier::spinoff_prover]
proof fn lemma_actor_parts(p: ActorPlan, rest: Seq<u8>)
    requires
        actor_wf(p),
    ensures
        ({
            let s = actor_bytes(p) + rest;
            &&& parse_u64(s) == Ok::<(u64, nat), LoadError>((p.id, 8))
            &&& parse_u64(s.skip(8)) == Ok::<(u64, nat), LoadError>((p.home, 8))
            &&& parse_u32(s.skip(16)) == Ok::<(u32, nat), LoadError>((p.credits, 4))
            &&& parse_u32(s.skip(20)) == Ok::<(u32, nat), LoadError>((p.reserve, 4))
            &&& s.skip(24) == control_bytes(p.units, p.values) + rest
        }),
{
    reveal(actor_bytes);
    let cb = control_bytes(p.units, p.values);
    let x3 = u32_le(p.reserve) + (cb + rest);
    let x2 = u32_le(p.credits) + x3;
    let x1 = u64_le(p.home) + x2;
    let s = actor_bytes(p) + rest;
    assert(s == u64_le(p.id) + x1) by {
        lemma_concat_associative(u32_le(p.reserve), cb, rest);
        lemma_concat_associative(u32_le(p.credits), u32_le(p.reserve) + cb, rest);
        lemma_concat_associative(u64_le(p.home), u32_le(p.credits) + (u32_le(p.reserve) + cb), rest);
        lemma_concat_associative(
            u64_le(p.id),
            u64_le(p.home) + (u32_le(p.credits) + (u32_le(p.reserve) + cb)),
            rest,
        );
    }
    lemma_u64_roundtrip(p.id, x1);
    lemma_u64_roundtrip(p.home, x2);
    lemma_u32_roundtrip(p.credits, x3);
    lemma_u32_roundtrip(p.reserve, cb + rest);
    assert(s.skip(8) == x1) by {
        lemma_skip_add(u64_le(p.id), x1, 0);
    }
    assert(s.skip(16) == x2) by {
        lemma_skip_add(u64_le(p.id), x1, 8);
        lemma_skip_add(u64_le(p.home), x2, 0);
    }
    assert(s.skip(20) == x3) by {
        lemma_skip_add(u64_le(p.id), x1, 12);
        lemma_skip_add(u64_le(p.home), x2, 4);
        lemma_skip_add(u32_le(p.credits), x3, 0);
    }
    assert(s.skip(24) == cb + rest) by {
        lemma_skip_add(u64_le(p.id), x1, 16);
        lemma_skip_add(u64_le(p.home), x2, 8);
        lemma_skip_add(u32_le(p.credits), x3, 4);
        lemma_skip_add(u32_le(p.reserve), cb + rest, 0);
    }
}

/// Reading back an actor's record gives the actor, whatever follows it.
#[verifier::spinoff_prover]
pub proof fn lemma_actor_roundtrip(p: ActorPlan, rest: Seq<u8>)
    requires
        actor_wf(p),
    ensures
        parse_actor(actor_bytes(p) + rest) == Ok::<(ActorPlan, nat), LoadError>(
            (p, actor_bytes(p).len()),
        ),
{
    let cb = control_bytes(p.units, p.values);
    assert(actor_bytes(p).len() == 24 + cb.len()) by {
        reveal(actor_bytes);
    }
    lemma_actor_parts(p, rest);
    lemma_control_roundtrip(p.units, p.values, rest);
    lemma_actor_from_parts(actor_bytes(p) + rest, p, cb.len());
}

#[verifier::spinoff_prover]
proof fn lemma_actor_from_parts(s: Seq<u8>, p: ActorPlan, n: nat)
    requires
        parse_u64(s) == Ok::<(u64, nat), LoadError>((p.id, 8)),
        parse_u64(s.skip(8)) == Ok::<(u64, nat), LoadError>((p.home, 8)),
        parse_u32(s.skip(16)) == Ok::<(u32, nat), LoadError>((p.credits, 4)),
        parse_u32(s.skip(20)) == Ok::<(u32, nat), LoadError>((p.reserve, 4)),
        parse_control(s.skip(24)) == Ok::<((Seq<Unit>, ValuesPlan), nat), LoadError>(
            ((p.units, p.values), n),
        ),
    ensures
        parse_actor(s) == Ok::<(ActorPlan, nat), LoadError>((p, 24 + n)),
{
    reveal(parse_actor);
}

impl Default for Actor {
    fn default() -> (r: Self)
        ensures
            r.body.id == 0 && r.body.home == 0 && r.body.credits == 0 && r.body.reserve == 0,
            r.body.inside@ == Seq::<ActorInside>::empty(),
            r.control.units.units@ == Seq::<Unit>::empty(),
            values_plan(r.control.values) == empty_values(),
    {
        Actor { body: Body::default(), control: Control::default() }
    }
}

/// The empty working memory of a new control.
pub open spec fn empty_values() -> ValuesPlan {
    ValuesPlan {
        values: Seq::empty(),
        credits: 0,
        birth: false,
        birthcredits: Seq::empty(),
        seeds: Seq::empty(),
    }
}

impl Actor {
    pub fn get_id(&self) -> (r: u64)
        ensures
            r == self.body.id,
    {
        self.body.id
    }

    /// Charges `amount` credits; an actor that cannot pay loses all its
    /// credits and announces its death.
    pub fn billing(&mut self, amount: u32, dispatcher: &mut Dispatcher<ActorLifecycle>)
        ensures
            final(self).body.id == old(self).body.id,
            final(self).body.home == old(self).body.home,
            final(self).body.reserve == old(self).body.reserve,
            final(self).body.inside == old(self).body.inside,
            final(self).control == old(self).control,
            old(self).body.credits >= amount ==> {
                &&& final(self).body.credits == old(self).body.credits - amount
                &&& final(dispatcher)@ == old(dispatcher)@
            },
            old(self).body.credits < amount ==> {
                &&& final(self).body.credits == 0
                &&& final(dispatcher)@ == old(dispatcher)@.push(
                    ActorLifecycle::Death { id: old(self).body.id },
                )
            },
    {
        if self.body.credits >= amount {
            self.body.credits = self.body.credits - amount;
        } else {
            self.body.credits = 0;
            dispatcher.put(ActorLifecycle::Death { id: self.body.id });
        }
    }

    /// Adds `amount` credits, up to `u32::MAX`.
    pub fn feed(&mut self, amount: u32)
        ensures
            final(self).body.credits == (if old(self).body.credits + amount > u32::MAX {
                u32::MAX as int
            } else {
                old(self).body.credits + amount
            }),
            final(self).body.id == old(self).body.id,
            final(self).body.home == old(self).body.home,
            final(self).body.reserve == old(self).body.reserve,
            final(self).body.inside == old(self).body.inside,
            final(self).control == old(self).control,
    {
        self.body.credits = self.body.credits.saturating_add(amount);
    }

    /// A new actor with the given id, credits and home, whose control is
    /// built from the blueprint whose bytes are `startup`.
    pub fn new(id: u64, credits: u32, home: u64, startup: Vec<u8>) -> (r: Actor)
        requires
            parse_plan(startup@) matches Ok((p, _)) && control_units_defined(p) && control_units(
                p,
            ).1 is None,
        ensures
            r.body.id == id,
            r.body.home == home,
            r.body.credits == credits,
            r.body.reserve == 0,
            r.body.inside@ == Seq::<ActorInside>::empty(),
            parse_plan(startup@) matches Ok((p, _)) && r.control.units.units@ == control_units(p).0,
            values_plan(r.control.values) == empty_values(),
    {
        let mut actor = Actor::default();
        actor.body.id = id;
        actor.body.home = home;
        actor.body.credits = credits;
        let mut reader = Reader::new(startup);
        let bp = BluePrint::load(&mut reader).unwrap();
        actor.control.new(&bp);
        assert(Seq::<Unit>::empty() + actor.control.units.units@ =~= actor.control.units.units@);
        actor
    }

    /// Reads an actor's record: id, home, credits, reserve, control.
    pub fn load_1(source: &mut Reader) -> (r: Result<Actor, LoadError>)
        ensures
            read_into(
                *old(source),
                *final(source),
                r,
                parse_actor(old(source).rest()),
                |a: Actor| actor_plan(a),
            ),
            r matches Ok(a) ==> a.body.inside@ == Seq::<ActorInside>::empty(),
            r is Err ==> final(source).pos() == old(source).pos() + actor_stop(old(source).rest()),
    {
        let ghost s0 = source.rest();
        proof {
            reveal(parse_actor);
        }
        let mut actor = Actor::default();
        actor.body.id = source.u64()?;
        assert(source.rest() =~= s0.skip(8));
        actor.body.home = source.u64()?;
        assert(source.rest() =~= s0.skip(16));
        actor.body.credits = source.u32()?;
        assert(source.rest() =~= s0.skip(20));
        actor.body.reserve = source.u32()?;
        assert(source.rest() =~= s0.skip(24));
        actor.control.load_1(source)?;
        assert(Seq::<Unit>::empty() + actor.control.units.units@ =~= actor.control.units.units@);
        Ok(actor)
    }

    /// Writes the actor's record in the form that `load_1` reads.
    pub fn save_1(&self, target: &mut Writer)
        ensures
            final(target)@ == old(target)@ + actor_bytes(actor_plan(*self)),
    {
        target.u64(self.body.id);
        target.u64(self.body.home);
        target.u32(self.body.credits);
        target.u32(self.body.reserve);
        self.control.save_1(target);
        proof {
            reveal(actor_bytes);
        }
        assert(target@ =~= old(target)@ + actor_bytes(actor_plan(*self)));
    }
}

} // verus!
