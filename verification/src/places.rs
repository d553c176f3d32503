//! Places where actors live: the commune, which bills every actor it holds,
//! and the worlds of a realm, which feed theirs.
use crate::actors::{births_of, lemma_births_no_deaths, Actor, ActorInside, ActorLifecycle};
use crate::bytes::{lemma_u32_roundtrip, lemma_u64_roundtrip, u32_le, u64_le};
use crate::depot::{Slab, SlabIndex};
use crate::dispatcher::Dispatcher;
use crate::storage::{
    lemma_many_bytes_push, lemma_many_roundtrip, lemma_many_step, lemma_skip_add, many_bytes, many_so_far, many_stop, parse_many,
    parse_u32, parse_u64, read_into, read_step, LoadError, Parsed, Reader, Writer,
};
use std::collections::HashMap;
use vstd::prelude::*;
use vstd::seq_lib::lemma_concat_associative;

verus! {

broadcast use vstd::std_specs::hash::group_hash_axioms;

/// The commune: the actors it bills each tick, and what it bills them.
pub struct Container {
    pub billing: u32,
    pub actors: Vec<SlabIndex>,
}

/// A world: its id, the credits it feeds each of its actors each tick, and
/// those actors.
pub struct World {
    pub id: u64,
    pub production: u32,
    pub actors: Vec<SlabIndex>,
}

/// The worlds of the universe.
pub struct Realm {
    pub worlds: Vec<SlabIndex>,
}

/// The test that passes every slot but `x`.
pub open spec fn other_than(x: SlabIndex) -> spec_fn(SlabIndex) -> bool {
    |y: SlabIndex| y != x
}

/// `s` without any occurrence of `x`, in order.
pub open spec fn without(s: Seq<SlabIndex>, x: SlabIndex) -> Seq<SlabIndex> {
    s.filter(other_than(x))
}

/// Keeps the elements of `v` other than `x`, in order.
fn remove_all(v: &mut Vec<SlabIndex>, x: SlabIndex)
    ensures
        final(v)@ == without(old(v)@, x),
{
    let mut kept: Vec<SlabIndex> = Vec::new();
    let mut i: usize = 0;
    while i < v.len()
        invariant
            i <= v@.len(),
            v@ == old(v)@,
            kept@ == without(v@.take(i as int), x),
        decreases v@.len() - i,
    {
        let y = v[i];
        proof {
            assert(v@.take(i + 1) =~= v@.take(i as int).push(y));
            reveal(Seq::filter);
            assert(v@.take(i + 1).drop_last() =~= v@.take(i as int));
        }
        if y != x {
            kept.push(y);
        }
        i = i + 1;
    }
    assert(v@.take(v@.len() as int) =~= v@);
    *v = kept;
}

impl Default for Container {
    fn default() -> (r: Self)
        ensures
            r.billing == 0,
            r.actors@ == Seq::<SlabIndex>::empty(),
    {
        Container { billing: 0, actors: Vec::new() }
    }
}

impl Container {
    /// Adds an actor to the commune.
    pub fn insert(&mut self, actor: SlabIndex)
        ensures
            final(self).actors@ == old(self).actors@.push(actor),
            final(self).billing == old(self).billing,
    {
        self.actors.push(actor);
    }

    /// Takes an actor out of the commune.
    pub fn drop_actor(&mut self, actor: SlabIndex)
        ensures
            final(self).actors@ == without(old(self).actors@, actor),
            final(self).billing == old(self).billing,
    {
        remove_all(&mut self.actors, actor);
    }

    /// Reads the commune's billing.
    pub fn load_1(&mut self, source: &mut Reader) -> (r: Result<(), LoadError>)
        ensures
            final(self).actors == old(self).actors,
            final(source).data() == old(source).data(),
            final(source).pos() <= final(source).data().len(),
            match parse_u32(old(source).rest()) {
                Ok((b, n)) => r is Ok && final(self).billing == b && final(source).pos() == old(
                    source,
                ).pos() + n,
                Err(e) => r == Err::<(), LoadError>(e) && final(self).billing == old(self).billing
                    && final(source).pos() == old(source).pos(),
            },
    {
        self.billing = source.u32()?;
        Ok(())
    }

    /// Writes the commune's billing.
    pub fn save_1(&self, target: &mut Writer)
        ensures
            final(target)@ == old(target)@ + u32_le(self.billing),
    {
        target.u32(self.billing);
    }
}

impl Default for Realm {
    fn default() -> (r: Self)
        ensures
            r.worlds@ == Seq::<SlabIndex>::empty(),
    {
        Realm { worlds: Vec::new() }
    }
}

impl Realm {
    /// Adds a world to the realm.
    pub fn insert(&mut self, world: SlabIndex)
        ensures
            final(self).worlds@ == old(self).worlds@.push(world),
    {
        self.worlds.push(world);
    }
}

/// The content of a world's record, once its actor ids are looked up.
pub struct WorldPlan {
    pub id: u64,
    pub production: u32,
    pub actors: Seq<SlabIndex>,
}

pub open spec fn id_writer() -> spec_fn(u64) -> Seq<u8> {
    |x: u64| u64_le(x)
}

/// The bytes of a world's record: its id, its production, and the count and
/// ids of its actors.
pub open spec fn world_bytes(id: u64, production: u32, ids: Seq<u64>) -> Seq<u8> {
    u64_le(id) + (u32_le(production) + (u32_le(ids.len() as u32) + many_bytes(ids, id_writer())))
}

/// Reads an actor id and gives the slot of the actor that `lookup` knows by
/// it.
pub open spec fn actor_ref_parser(lookup: Map<u64, SlabIndex>) -> spec_fn(Seq<u8>) -> Parsed<
    SlabIndex,
> {
    |s: Seq<u8>|
        match parse_u64(s) {
            Ok((aid, n)) => if lookup.contains_key(aid) {
                Ok((lookup[aid], n))
            } else {
                Err(LoadError::ActorNotFound)
            },
            Err(e) => Err(e),
        }
}

/// Reads a world's record, looking up each of its actor ids.
pub open spec fn parse_world(s: Seq<u8>, lookup: Map<u64, SlabIndex>) -> Parsed<WorldPlan> {
    match parse_u64(s) {
        Err(e) => Err(e),
        Ok((id, _)) => match parse_u32(s.skip(8)) {
            Err(e) => Err(e),
            Ok((production, _)) => match parse_u32(s.skip(12)) {
                Err(e) => Err(e),
                Ok((count, _)) => match parse_many(
                    s.skip(16),
                    count as nat,
                    actor_ref_parser(lookup),
                ) {
                    Ok((actors, n)) => Ok((WorldPlan { id, production, actors }, 16 + n)),
                    Err(e) => Err(e),
                },
            },
        },
    }
}

/// A world's record as written: its id, its production, its actors' ids.
pub struct WorldRecord {
    pub id: u64,
    pub production: u32,
    pub actor_ids: Seq<u64>,
}

/// Reads an actor id that must be one of `known`.
pub open spec fn known_id_parser(known: Set<u64>) -> spec_fn(Seq<u8>) -> Parsed<u64> {
    |s: Seq<u8>|
        match parse_u64(s) {
            Ok((aid, n)) => if known.contains(aid) {
                Ok((aid, n))
            } else {
                Err(LoadError::ActorNotFound)
            },
            Err(e) => Err(e),
        }
}

/// Reads a world's record whose actor ids must all be `known`.
pub open spec fn parse_world_record(s: Seq<u8>, known: Set<u64>) -> Parsed<WorldRecord> {
    match parse_u64(s) {
        Err(e) => Err(e),
        Ok((id, _)) => match parse_u32(s.skip(8)) {
            Err(e) => Err(e),
            Ok((production, _)) => match parse_u32(s.skip(12)) {
                Err(e) => Err(e),
                Ok((count, _)) => match parse_many(s.skip(16), count as nat, known_id_parser(known)) {
                    Ok((actor_ids, n)) => Ok((WorldRecord { id, production, actor_ids }, 16 + n)),
                    Err(e) => Err(e),
                },
            },
        },
    }
}

/// How far reading an actor id gets before it fails: past the id, when it
/// is read but not known.
pub open spec fn id_stop(s: Seq<u8>) -> nat {
    if parse_u64(s) is Err {
        0
    } else {
        8
    }
}

pub open spec fn id_stopper() -> spec_fn(Seq<u8>) -> nat {
    |s: Seq<u8>| id_stop(s)
}

/// How far reading a world's record whose actor ids must be `known` gets
/// before it fails: past its header and the ids read before the failure.
pub open spec fn world_stop(s: Seq<u8>, known: Set<u64>) -> nat {
    if parse_u64(s) is Err {
        0
    } else if parse_u32(s.skip(8)) is Err {
        8
    } else if parse_u32(s.skip(12)) is Err {
        12
    } else {
        16 + many_stop(
            s.skip(16),
            parse_u32(s.skip(12))->Ok_0.0 as nat,
            known_id_parser(known),
            id_stopper(),
        )
    }
}

pub open spec fn world_stopper(known: Set<u64>) -> spec_fn(Seq<u8>) -> nat {
    |s: Seq<u8>| world_stop(s, known)
}

pub open spec fn world_record_parser(known: Set<u64>) -> spec_fn(Seq<u8>) -> Parsed<WorldRecord> {
    |s: Seq<u8>| parse_world_record(s, known)
}

pub open spec fn world_record_writer() -> spec_fn(WorldRecord) -> Seq<u8> {
    |r: WorldRecord| world_bytes(r.id, r.production, r.actor_ids)
}

/// Each id of `ids`, replaced by the slot `lookup` gives it.
pub open spec fn slots_for(ids: Seq<u64>, lookup: Map<u64, SlabIndex>) -> Seq<SlabIndex> {
    Seq::new(ids.len(), |k: int| lookup[ids[k]])
}

/// Every id read by a known-id parser is known.
pub proof fn lemma_known_ids(s: Seq<u8>, count: nat, known: Set<u64>)
    ensures
        parse_many(s, count, known_id_parser(known)) matches Ok((ids, _)) ==> forall|j: int|
            0 <= j < ids.len() ==> known.contains(#[trigger] ids[j]),
    decreases count,
{
    if count > 0 {
        if let Ok((aid, n)) = parse_u64(s) {
            if known.contains(aid) {
                assert(known_id_parser(known)(s) == Ok::<(u64, nat), LoadError>((aid, n)));
                lemma_known_ids(s.skip(n as int), (count - 1) as nat, known);
                if let Ok((ids, m)) = parse_many(
                    s.skip(n as int),
                    (count - 1) as nat,
                    known_id_parser(known),
                ) {
                    let all = seq![aid] + ids;
                    assert(parse_many(s, count, known_id_parser(known)) == Ok::<
                        (Seq<u64>, nat),
                        LoadError,
                    >((all, n + m)));
                    assert forall|j: int| 0 <= j < all.len() implies known.contains(
                        #[trigger] all[j],
                    ) by {
                        if j > 0 {
                            assert(all[j] == ids[j - 1]);
                        } else {
                            assert(all[0] == aid);
                        }
                    }
                }
            }
        }
    }
}

/// Every id of a world record read with known ids is known.
pub proof fn lemma_record_ids_known(s: Seq<u8>, known: Set<u64>)
    ensures
        parse_world_record(s, known) matches Ok((r, _)) ==> forall|j: int|
            0 <= j < r.actor_ids.len() ==> known.contains(#[trigger] r.actor_ids[j]),
{
    match parse_u32(s.skip(12)) {
        Ok((count, _)) => lemma_known_ids(s.skip(16), count as nat, known),
        Err(_) => {},
    }
}

proof fn lemma_refs_via_ids(s: Seq<u8>, count: nat, lookup: Map<u64, SlabIndex>)
    ensures
        parse_many(s, count, actor_ref_parser(lookup)) == match parse_many(
            s,
            count,
            known_id_parser(lookup.dom()),
        ) {
            Ok((ids, n)) => Ok((slots_for(ids, lookup), n)),
            Err(e) => Err::<(Seq<SlabIndex>, nat), LoadError>(e),
        },
    decreases count,
{
    if count == 0 {
        assert(slots_for(Seq::<u64>::empty(), lookup) =~= Seq::<SlabIndex>::empty());
    } else {
        match parse_u64(s) {
            Ok((aid, n)) => {
                if lookup.contains_key(aid) {
                    lemma_refs_via_ids(s.skip(n as int), (count - 1) as nat, lookup);
                    match parse_many(s.skip(n as int), (count - 1) as nat, known_id_parser(lookup.dom())) {
                        Ok((ids, m)) => {
                            assert(slots_for(seq![aid] + ids, lookup) =~= seq![lookup[aid]] + slots_for(ids, lookup));
                        },
                        Err(e) => {},
                    }
                }
            },
            Err(e) => {},
        }
    }
}

/// Reading a world with a lookup is reading its record with the ids the
/// lookup knows, then replacing each id by its slot.
pub proof fn lemma_world_via_record(s: Seq<u8>, lookup: Map<u64, SlabIndex>)
    ensures
        parse_world(s, lookup) == match parse_world_record(s, lookup.dom()) {
            Ok((r, n)) => Ok(
                (
                    WorldPlan {
                        id: r.id,
                        production: r.production,
                        actors: slots_for(r.actor_ids, lookup),
                    },
                    n,
                ),
            ),
            Err(e) => Err::<(WorldPlan, nat), LoadError>(e),
        },
{
    match parse_u32(s.skip(12)) {
        Ok((count, _)) => lemma_refs_via_ids(s.skip(16), count as nat, lookup),
        Err(_) => {},
    }
}

pub open spec fn world_plan(w: World) -> WorldPlan {
    WorldPlan { id: w.id, production: w.production, actors: w.actors@ }
}

/// The ids of the actors in the slots `order`.
pub open spec fn ids_of(actors: Map<usize, Actor>, order: Seq<SlabIndex>) -> Seq<u64> {
    Seq::new(order.len(), |k: int| actors[order[k].0].body.id)
}

/// Every slot of `order` holds an actor.
pub open spec fn all_present(actors: Map<usize, Actor>, order: Seq<SlabIndex>) -> bool {
    forall|k: int| 0 <= k < order.len() ==> actors.contains_key(#[trigger] order[k].0)
}

/// `lookup` finds each actor of `order` by its id.
pub open spec fn finds_all(
    lookup: Map<u64, SlabIndex>,
    actors: Map<usize, Actor>,
    order: Seq<SlabIndex>,
) -> bool {
    forall|k: int|
        0 <= k < order.len() ==> lookup.contains_key(actors[(#[trigger] order[k]).0].body.id)
            && lookup[actors[order[k].0].body.id] == order[k]
}

/// Reading back a world's record, with a lookup that finds each of its
/// actors by id, gives the world.
#[verifier::spinoff_prover]
pub proof fn lemma_world_roundtrip(
    w: WorldPlan,
    actors: Map<usize, Actor>,
    lookup: Map<u64, SlabIndex>,
    rest: Seq<u8>,
)
    requires
        w.actors.len() <= u32::MAX,
        finds_all(lookup, actors, w.actors),
    ensures
        parse_world(world_bytes(w.id, w.production, ids_of(actors, w.actors)) + rest, lookup)
            == Ok::<(WorldPlan, nat), LoadError>(
            (w, world_bytes(w.id, w.production, ids_of(actors, w.actors)).len()),
        ),
{
    let ids = ids_of(actors, w.actors);
    let mb = many_bytes(ids, id_writer());
    let x3 = u32_le(ids.len() as u32) + (mb + rest);
    let x2 = u32_le(w.production) + x3;
    let s = world_bytes(w.id, w.production, ids) + rest;
    assert(world_bytes(w.id, w.production, ids).len() == 16 + mb.len());
    assert(s == u64_le(w.id) + x2) by {
        lemma_concat_associative(u32_le(ids.len() as u32), mb, rest);
        lemma_concat_associative(u32_le(w.production), u32_le(ids.len() as u32) + mb, rest);
        lemma_concat_associative(
            u64_le(w.id),
            u32_le(w.production) + (u32_le(ids.len() as u32) + mb),
            rest,
        );
    }
    lemma_u64_roundtrip(w.id, x2);
    lemma_u32_roundtrip(w.production, x3);
    lemma_u32_roundtrip(ids.len() as u32, mb + rest);
    assert(s.skip(8) == x2) by {
        lemma_skip_add(u64_le(w.id), x2, 0);
    }
    assert(s.skip(12) == x3) by {
        lemma_skip_add(u64_le(w.id), x2, 4);
        lemma_skip_add(u32_le(w.production), x3, 0);
    }
    assert(s.skip(16) == mb + rest) by {
        lemma_skip_add(u64_le(w.id), x2, 8);
        lemma_skip_add(u32_le(w.production), x3, 4);
        lemma_skip_add(u32_le(ids.len() as u32), mb + rest, 0);
    }
    lemma_refs_roundtrip(w.actors, actors, lookup, rest);
}

/// Reading back a world's record whose actor ids are all known gives the
/// record.
#[verifier::spinoff_prover]
pub proof fn lemma_world_record_roundtrip(r: WorldRecord, known: Set<u64>, rest: Seq<u8>)
    requires
        r.actor_ids.len() <= u32::MAX,
        forall|j: int| 0 <= j < r.actor_ids.len() ==> known.contains(#[trigger] r.actor_ids[j]),
    ensures
        parse_world_record(world_bytes(r.id, r.production, r.actor_ids) + rest, known) == Ok::<
            (WorldRecord, nat),
            LoadError,
        >((r, world_bytes(r.id, r.production, r.actor_ids).len())),
{
    let ids = r.actor_ids;
    let mb = many_bytes(ids, id_writer());
    let x3 = u32_le(ids.len() as u32) + (mb + rest);
    let x2 = u32_le(r.production) + x3;
    let s = world_bytes(r.id, r.production, ids) + rest;
    lemma_u64_roundtrip(r.id, x2);
    lemma_u32_roundtrip(r.production, x3);
    lemma_u32_roundtrip(ids.len() as u32, mb + rest);
    assert(world_bytes(r.id, r.production, ids).len() == 16 + mb.len());
    assert(s == u64_le(r.id) + x2) by {
        lemma_concat_associative(u32_le(ids.len() as u32), mb, rest);
        lemma_concat_associative(u32_le(r.production), u32_le(ids.len() as u32) + mb, rest);
        lemma_concat_associative(
            u64_le(r.id),
            u32_le(r.production) + (u32_le(ids.len() as u32) + mb),
            rest,
        );
    }
    assert(s.skip(8) == x2) by {
        lemma_skip_add(u64_le(r.id), x2, 0);
    }
    assert(s.skip(12) == x3) by {
        lemma_skip_add(u64_le(r.id), x2, 4);
        lemma_skip_add(u32_le(r.production), x3, 0);
    }
    assert(s.skip(16) == mb + rest) by {
        lemma_skip_add(u64_le(r.id), x2, 8);
        lemma_skip_add(u32_le(r.production), x3, 4);
        lemma_skip_add(u32_le(ids.len() as u32), mb + rest, 0);
    }
    assert forall|i: int, rr: Seq<u8>|
        #![trigger known_id_parser(known)(id_writer()(ids[i]) + rr)]
        0 <= i < ids.len() implies known_id_parser(known)(id_writer()(ids[i]) + rr) == Ok::<
            (u64, nat),
            LoadError,
        >((ids[i], id_writer()(ids[i]).len())) by {
        lemma_u64_roundtrip(ids[i], rr);
    }
    lemma_many_roundtrip(ids, rest, known_id_parser(known), id_writer());
}

#[verifier::spinoff_prover]
proof fn lemma_refs_roundtrip(
    order: Seq<SlabIndex>,
    actors: Map<usize, Actor>,
    lookup: Map<u64, SlabIndex>,
    rest: Seq<u8>,
)
    requires
        finds_all(lookup, actors, order),
    ensures
        parse_many(
            many_bytes(ids_of(actors, order), id_writer()) + rest,
            order.len(),
            actor_ref_parser(lookup),
        ) == Ok::<(Seq<SlabIndex>, nat), LoadError>(
            (order, many_bytes(ids_of(actors, order), id_writer()).len()),
        ),
    decreases order.len(),
{
    let ids = ids_of(actors, order);
    if order.len() == 0 {
        assert(order =~= Seq::<SlabIndex>::empty());
        assert(many_bytes(ids, id_writer()) == Seq::<u8>::empty());
        assert(many_bytes(ids, id_writer()) + rest =~= rest);
    } else {
        let others = order.drop_first();
        let tail = many_bytes(ids_of(actors, others), id_writer()) + rest;
        assert(ids.drop_first() =~= ids_of(actors, others));
        assert(many_bytes(ids, id_writer()) == u64_le(ids[0]) + many_bytes(ids.drop_first(), id_writer()));
        let s = many_bytes(ids, id_writer()) + rest;
        assert(s == u64_le(ids[0]) + tail) by {
            lemma_concat_associative(u64_le(ids[0]), many_bytes(ids.drop_first(), id_writer()), rest);
        }
        lemma_u64_roundtrip(ids[0], tail);
        lemma_skip_add(u64_le(ids[0]), tail, 0);
        assert(finds_all(lookup, actors, others)) by {
            assert forall|k: int| 0 <= k < others.len() implies lookup.contains_key(
                actors[(#[trigger] others[k]).0].body.id,
            ) && lookup[actors[others[k].0].body.id] == others[k] by {
                assert(others[k] == order[k + 1]);
            }
        }
        assert(lookup.contains_key(actors[order[0].0].body.id));
        lemma_refs_roundtrip(others, actors, lookup, rest);
        assert(seq![order[0]] + others =~= order);
    }
}

impl World {
    /// Reads a world's record, finding each of its actors by id in
    /// `alookup`.
    pub fn load_1(source: &mut Reader, alookup: &HashMap<u64, SlabIndex>) -> (r: Result<
        World,
        LoadError,
    >)
        ensures
            read_into(
                *old(source),
                *final(source),
                r,
                parse_world(old(source).rest(), alookup@),
                |w: World| world_plan(w),
            ),
            r is Err ==> final(source).pos() == old(source).pos() + world_stop(
                old(source).rest(),
                alookup@.dom(),
            ),
    {
        let ghost s0 = source.rest();
        let id = source.u64()?;
        assert(source.rest() =~= s0.skip(8));
        let production = source.u32()?;
        assert(source.rest() =~= s0.skip(12));
        let counta = source.u32()?;
        assert(source.rest() =~= s0.skip(16));
        let ghost s1 = source.rest();
        let ghost p1 = source.pos();
        let ghost item = actor_ref_parser(alookup@);
        let mut actors: Vec<SlabIndex> = Vec::new();
        let mut i: u32 = 0;
        while i < counta
            invariant
                source.data() == old(source).data(),
                source.pos() <= source.data().len(),
                p1 <= source.pos(),
                s1 == source.data().skip(p1 as int),
                s1 == s0.skip(16),
                s0 == old(source).rest(),
                p1 == old(source).pos() + 16,
                item == actor_ref_parser(alookup@),
                parse_u64(s0) == Ok::<(u64, nat), LoadError>((id, 8)),
                parse_u32(s0.skip(8)) == Ok::<(u32, nat), LoadError>((production, 4)),
                parse_u32(s0.skip(12)) == Ok::<(u32, nat), LoadError>((counta, 4)),
                i <= counta,
                many_so_far(
                    parse_many(s1, counta as nat, item),
                    actors@,
                    (source.pos() - p1) as nat,
                    parse_many(source.rest(), (counta - i) as nat, item),
                ),
                world_stop(s0, alookup@.dom()) == 16 + (source.pos() - p1) + many_stop(
                    source.rest(),
                    (counta - i) as nat,
                    known_id_parser(alookup@.dom()),
                    id_stopper(),
                ),
            decreases counta - i,
        {
            let ghost before = *source;
            let aid = source.u64()?;
            proof {
                assert(before.rest().skip(8) =~= source.rest());
            }
            if let Some(iactor) = alookup.get(&aid) {
                proof {
                    let k = (source.pos() - before.pos()) as nat;
                    assert(item(before.rest()) == Ok::<(SlabIndex, nat), LoadError>((*iactor, k)));
                    assert(before.rest().skip(k as int) =~= source.rest());
                    lemma_many_step(
                        parse_many(s1, counta as nat, item),
                        actors@,
                        (before.pos() - p1) as nat,
                        before.rest(),
                        (counta - i) as nat,
                        item,
                        *iactor,
                        k,
                    );
                }
                actors.push(*iactor);
            } else {
                return Err(LoadError::ActorNotFound);
            }
            i = i + 1;
        }
        assert(actors@ + Seq::<SlabIndex>::empty() =~= actors@);
        Ok(World { id, production, actors })
    }

    /// Writes the world's record, naming each of its actors by id.
    pub fn save_1(&self, target: &mut Writer, actors: &Slab<Actor>)
        requires
            all_present(actors@, self.actors@),
        ensures
            final(target)@ == old(target)@ + world_bytes(
                self.id,
                self.production,
                ids_of(actors@, self.actors@),
            ),
    {
        let ghost ids = ids_of(actors@, self.actors@);
        target.u64(self.id);
        target.u32(self.production);
        target.count(self.actors.len());
        let ghost head = target@;
        let mut i: usize = 0;
        while i < self.actors.len()
            invariant
                i <= self.actors@.len(),
                ids == ids_of(actors@, self.actors@),
                all_present(actors@, self.actors@),
                head == old(target)@ + u64_le(self.id) + u32_le(self.production) + u32_le(
                    self.actors@.len() as u32,
                ),
                target@ == head + many_bytes(ids.take(i as int), id_writer()),
            decreases self.actors@.len() - i,
        {
            let index = self.actors[i];
            assert(actors@.contains_key(self.actors@[i as int].0));
            let actor = actors.get(index).unwrap();
            target.u64(actor.get_id());
            proof {
                assert(ids[i as int] == actor.body.id);
                assert(ids.take(i + 1) =~= ids.take(i as int).push(ids[i as int]));
                lemma_many_bytes_push(ids.take(i as int), ids[i as int], id_writer());
            }
            i = i + 1;
        }
        assert(ids.take(ids.len() as int) =~= ids);
        assert(target@ =~= old(target)@ + world_bytes(self.id, self.production, ids));
    }
}

/// `a + b`, or `u32::MAX` when that is more.
pub open spec fn sat_add(a: u32, b: u32) -> u32 {
    if a + b > u32::MAX {
        u32::MAX
    } else {
        (a + b) as u32
    }
}

/// The credits of each stored actor, by slot.
pub open spec fn credits_of(actors: Map<usize, Actor>) -> Map<usize, u32> {
    Map::new(|i: usize| actors.contains_key(i), |i: usize| actors[i].body.credits)
}

/// The credits after feeding `amount` to the actor of each slot of
/// `order`, in turn.
pub open spec fn feed_all(credits: Map<usize, u32>, order: Seq<SlabIndex>, amount: u32) -> Map<
    usize,
    u32,
>
    decreases order.len(),
{
    if order.len() == 0 {
        credits
    } else {
        let i = order[0].0;
        feed_all(credits.insert(i, sat_add(credits[i], amount)), order.drop_first(), amount)
    }
}

/// The credits after each world of `order`, in turn, feeds its actors.
pub open spec fn realm_feed(
    credits: Map<usize, u32>,
    order: Seq<SlabIndex>,
    worlds: Map<usize, World>,
) -> Map<usize, u32>
    decreases order.len(),
{
    if order.len() == 0 {
        credits
    } else {
        let w = worlds[order[0].0];
        realm_feed(feed_all(credits, w.actors@, w.production), order.drop_first(), worlds)
    }
}

/// Two actors that differ at most in their credits.
pub open spec fn same_but_credits(a: Actor, b: Actor) -> bool {
    &&& a.body.id == b.body.id
    &&& a.body.home == b.body.home
    &&& a.body.reserve == b.body.reserve
    &&& a.body.inside == b.body.inside
    &&& a.control == b.control
}

/// `after` holds the actors of `before` in the same slots, each changed at
/// most in its credits, which are those of `credits`.
pub open spec fn credited(before: Slab<Actor>, after: Slab<Actor>, credits: Map<usize, u32>) -> bool {
    &&& after.wf()
    &&& after.free() == before.free()
    &&& after.slots().len() == before.slots().len()
    &&& after@.dom() == before@.dom()
    &&& forall|i: usize|
        #![trigger after@[i]]
        before@.contains_key(i) ==> same_but_credits(after@[i], before@[i]) && after@[i].body.credits
            == credits[i]
}

impl World {
    /// Feeds each of the world's actors its production, in order.
    pub fn tick(&self, actors: &mut Slab<Actor>)
        requires
            old(actors).wf(),
            all_present(old(actors)@, self.actors@),
        ensures
            credited(
                *old(actors),
                *final(actors),
                feed_all(credits_of(old(actors)@), self.actors@, self.production),
            ),
    {
        let ghost order = self.actors@;
        let mut k: usize = 0;
        proof {
            assert(order.skip(0) =~= order);
        }
        while k < self.actors.len()
            invariant
                order == self.actors@,
                k <= order.len(),
                all_present(old(actors)@, order),
                credited(*old(actors), *actors, credits_of(actors@)),
                feed_all(credits_of(old(actors)@), order, self.production) == feed_all(
                    credits_of(actors@),
                    order.skip(k as int),
                    self.production,
                ),
            decreases order.len() - k,
        {
            let index = self.actors[k];
            let ghost before = *actors;
            assert(actors@.contains_key(index.0));
            let actor = actors.get_mut(index).unwrap();
            actor.feed(self.production);
            proof {
                let c = credits_of(before@);
                assert(order.skip(k as int)[0] == index);
                assert(order.skip(k as int).drop_first() =~= order.skip(k + 1));
                assert(credits_of(actors@) =~= c.insert(
                    index.0,
                    sat_add(c[index.0], self.production),
                ));
                assert forall|i: usize|
                    #![trigger actors@[i]]
                    old(actors)@.contains_key(i) implies same_but_credits(
                    actors@[i],
                    old(actors)@[i],
                ) && actors@[i].body.credits == credits_of(actors@)[i] by {
                    if i != index.0 {
                        assert(actors@[i] == before@[i]);
                    }
                }
                assert(actors@.dom() =~= old(actors)@.dom());
            }
            k = k + 1;
        }
        proof {
            assert(order.skip(order.len() as int) =~= Seq::<SlabIndex>::empty());
        }
    }
}

impl Realm {
    /// Lets each world of the realm, in order, feed its actors.
    pub fn tick(&self, worlds: &mut Slab<World>, actors: &mut Slab<Actor>)
        requires
            old(actors).wf(),
            forall|k: int|
                0 <= k < self.worlds@.len() ==> old(worlds)@.contains_key(
                    (#[trigger] self.worlds@[k]).0,
                ) && all_present(old(actors)@, old(worlds)@[self.worlds@[k].0].actors@),
        ensures
            *final(worlds) == *old(worlds),
            credited(
                *old(actors),
                *final(actors),
                realm_feed(credits_of(old(actors)@), self.worlds@, old(worlds)@),
            ),
    {
        let ghost order = self.worlds@;
        let ghost wm = worlds@;
        let mut k: usize = 0;
        proof {
            assert(order.skip(0) =~= order);
            assert(credited(*old(actors), *actors, credits_of(actors@))) by {
                assert(actors@.dom() =~= old(actors)@.dom());
            }
        }
        while k < self.worlds.len()
            invariant
                order == self.worlds@,
                wm == worlds@,
                *worlds == *old(worlds),
                k <= order.len(),
                forall|j: int|
                    0 <= j < order.len() ==> wm.contains_key((#[trigger] order[j]).0)
                        && all_present(old(actors)@, wm[order[j].0].actors@),
                credited(*old(actors), *actors, credits_of(actors@)),
                realm_feed(credits_of(old(actors)@), order, wm) == realm_feed(
                    credits_of(actors@),
                    order.skip(k as int),
                    wm,
                ),
            decreases order.len() - k,
        {
            let index = self.worlds[k];
            assert(wm.contains_key(order[k as int].0));
            let world = worlds.get(index).unwrap();
            let ghost before = *actors;
            proof {
                assert(forall|j: int|
                    0 <= j < world.actors@.len() ==> actors@.contains_key(
                        (#[trigger] world.actors@[j]).0,
                    ));
            }
            world.tick(actors);
            proof {
                assert(order.skip(k as int)[0] == index);
                assert(order.skip(k as int).drop_first() =~= order.skip(k + 1));
                assert(credits_of(actors@) =~= feed_all(
                    credits_of(before@),
                    world.actors@,
                    world.production,
                )) by {
                    lemma_feed_all_dom(credits_of(before@), world.actors@, world.production);
                }
                assert forall|i: usize|
                    #![trigger actors@[i]]
                    old(actors)@.contains_key(i) implies same_but_credits(
                    actors@[i],
                    old(actors)@[i],
                ) && actors@[i].body.credits == credits_of(actors@)[i] by {
                    assert(before@.contains_key(i));
                }
            }
            k = k + 1;
        }
        proof {
            assert(order.skip(order.len() as int) =~= Seq::<SlabIndex>::empty());
        }
    }
}

/// Feeding keeps the slots that have credits.
proof fn lemma_feed_all_dom(credits: Map<usize, u32>, order: Seq<SlabIndex>, amount: u32)
    requires
        forall|k: int| 0 <= k < order.len() ==> credits.contains_key((#[trigger] order[k]).0),
    ensures
        feed_all(credits, order, amount).dom() == credits.dom(),
    decreases order.len(),
{
    if order.len() > 0 {
        let i = order[0].0;
        let next = credits.insert(i, sat_add(credits[i], amount));
        assert(next.dom() =~= credits.dom());
        assert forall|k: int| 0 <= k < order.drop_first().len() implies next.contains_key(
            (#[trigger] order.drop_first()[k]).0,
        ) by {
            assert(order.drop_first()[k] == order[k + 1]);
        }
        lemma_feed_all_dom(next, order.drop_first(), amount);
    }
}

/// What billing the actors of the slots `order`, in turn, and handing their
/// pending requests to the universe, does: the credits after it, the slots
/// whose requests were handed on, and the messages, in order. An actor that
/// cannot pay is left with nothing and announces its death; its requests are
/// handed on all the same.
pub open spec fn commune_run(
    credits: Map<usize, u32>,
    drained: Set<usize>,
    order: Seq<SlabIndex>,
    billing: u32,
    actors: Map<usize, Actor>,
) -> (Map<usize, u32>, Set<usize>, Seq<ActorLifecycle>)
    decreases order.len(),
{
    if order.len() == 0 {
        (credits, drained, Seq::empty())
    } else {
        let i = order[0].0;
        let a = actors[i];
        let dies = credits[i] < billing;
        let left: u32 = if dies {
            0
        } else {
            (credits[i] - billing) as u32
        };
        let death = if dies {
            seq![ActorLifecycle::Death { id: a.body.id }]
        } else {
            Seq::empty()
        };
        let births = if drained.contains(i) {
            Seq::empty()
        } else {
            births_of(a.body.inside@, a.body.id, a.body.home)
        };
        let (c, d, out) = commune_run(
            credits.insert(i, left),
            drained.insert(i),
            order.drop_first(),
            billing,
            actors,
        );
        (c, d, death + births + out)
    }
}

/// Commune billing charges each actor by its credits alone, whatever it
/// holds in reserve: an actor whose credits are at least the billing pays
/// it, any other is left with no credits, and the slots outside the commune
/// keep their credits. A death is announced for exactly the actors whose
/// credits are below the billing: for each of them, and only with the id of
/// one of them.
pub proof fn lemma_commune_billing(
    credits: Map<usize, u32>,
    drained: Set<usize>,
    order: Seq<SlabIndex>,
    billing: u32,
    actors: Map<usize, Actor>,
)
    requires
        order.no_duplicates(),
    ensures
        ({
            let (c, d, out) = commune_run(credits, drained, order, billing, actors);
            &&& forall|k: int|
                0 <= k < order.len() ==> c[(#[trigger] order[k]).0] == if credits[order[k].0]
                    >= billing {
                    credits[order[k].0] - billing
                } else {
                    0
                }
            &&& forall|i: usize|
                (forall|k: int| 0 <= k < order.len() ==> (#[trigger] order[k]).0 != i) ==> c[i]
                    == credits[i]
            &&& forall|k: int|
                0 <= k < order.len() && credits[(#[trigger] order[k]).0] < billing ==> out.contains(
                    ActorLifecycle::Death { id: actors[order[k].0].body.id },
                )
            &&& forall|m: int|
                0 <= m < out.len() && (#[trigger] out[m]) is Death ==> exists|k: int|
                    0 <= k < order.len() && credits[(#[trigger] order[k]).0] < billing
                        && actors[order[k].0].body.id == out[m]->id
        }),
    decreases order.len(),
{
    if order.len() > 0 {
        let i = order[0].0;
        let a = actors[i];
        let dies = credits[i] < billing;
        let left: u32 = if dies { 0 } else { (credits[i] - billing) as u32 };
        let death = if dies {
            seq![ActorLifecycle::Death { id: a.body.id }]
        } else {
            Seq::empty()
        };
        let births = if drained.contains(i) {
            Seq::empty()
        } else {
            births_of(a.body.inside@, a.body.id, a.body.home)
        };
        let rest = order.drop_first();
        let c1 = credits.insert(i, left);
        assert(rest.no_duplicates());
        lemma_commune_billing(c1, drained.insert(i), rest, billing, actors);
        lemma_births_no_deaths(a.body.inside@, a.body.id, a.body.home);
        let (c, d, out) = commune_run(c1, drained.insert(i), rest, billing, actors);
        let all = death + births + out;
        assert(commune_run(credits, drained, order, billing, actors) == (c, d, all));
        assert forall|j: int| 0 <= j < rest.len() implies (#[trigger] rest[j]).0 != i by {
            assert(rest[j] == order[j + 1]);
        }
        assert forall|k: int| 0 <= k < order.len() implies c[(#[trigger] order[k]).0] == if credits[
            order[k].0] >= billing {
            credits[order[k].0] - billing
        } else {
            0
        } by {
            if k > 0 {
                assert(order[k] == rest[k - 1]);
                assert(order[k] != order[0]);
            }
        }
        assert forall|j: usize|
            (forall|k: int| 0 <= k < order.len() ==> (#[trigger] order[k]).0 != j) implies c[j]
            == credits[j] by {
            assert(order[0].0 != j);
            assert forall|k: int| 0 <= k < rest.len() implies (#[trigger] rest[k]).0 != j by {
                assert(rest[k] == order[k + 1]);
            }
        }
        assert forall|k: int|
            0 <= k < order.len() && credits[(#[trigger] order[k]).0] < billing implies all.contains(
            ActorLifecycle::Death { id: actors[order[k].0].body.id },
        ) by {
            if k == 0 {
                assert(all[0] == ActorLifecycle::Death { id: a.body.id });
            } else {
                assert(order[k] == rest[k - 1]);
                assert(order[k] != order[0]);
                assert(c1[rest[k - 1].0] == credits[order[k].0]);
                let m = choose|m: int|
                    0 <= m < out.len() && out[m] == ActorLifecycle::Death {
                        id: actors[rest[k - 1].0].body.id,
                    };
                assert(all[death.len() + births.len() + m] == out[m]);
            }
        }
        assert forall|m: int| 0 <= m < all.len() && (#[trigger] all[m]) is Death implies exists|
            k: int,
        |
            0 <= k < order.len() && credits[(#[trigger] order[k]).0] < billing
                && actors[order[k].0].body.id == all[m]->id by {
            if m < death.len() {
                assert(credits[order[0].0] < billing);
            } else if m < death.len() + births.len() {
                assert(births[m - death.len()] == all[m]);
            } else {
                let m2 = m - death.len() - births.len();
                assert(out[m2] == all[m]);
                let k = choose|k: int|
                    0 <= k < rest.len() && c1[(#[trigger] rest[k]).0] < billing
                        && actors[rest[k].0].body.id == out[m2]->id;
                assert(rest[k] == order[k + 1]);
                assert(rest[k].0 != i);
                assert(credits[order[k + 1].0] < billing);
            }
        }
    }
}

/// `after` holds the actors of `before` in the same slots, each changed at
/// most in its credits, which are those of `credits`, and in its requests,
/// which are handed on for the slots of `drained`.
pub open spec fn billed(
    before: Slab<Actor>,
    after: Slab<Actor>,
    credits: Map<usize, u32>,
    drained: Set<usize>,
) -> bool {
    &&& after.wf()
    &&& after.free() == before.free()
    &&& after.slots().len() == before.slots().len()
    &&& after@.dom() == before@.dom()
    &&& forall|i: usize|
        #![trigger after@[i]]
        before@.contains_key(i) ==> {
            &&& after@[i].body.id == before@[i].body.id
            &&& after@[i].body.home == before@[i].body.home
            &&& after@[i].body.reserve == before@[i].body.reserve
            &&& after@[i].control == before@[i].control
            &&& after@[i].body.credits == credits[i]
            &&& after@[i].body.inside@ == if drained.contains(i) {
                Seq::<ActorInside>::empty()
            } else {
                before@[i].body.inside@
            }
        }
}

impl Container {
    /// Bills each actor of the commune, in order, and hands its pending
    /// requests to the universe. (Each actor's control then acts; that is
    /// the application's part.)
    pub fn tick(&self, actors: &mut Slab<Actor>, dispatcher: &mut Dispatcher<ActorLifecycle>)
        requires
            old(actors).wf(),
            all_present(old(actors)@, self.actors@),
        ensures
            ({
                let (c, d, out) = commune_run(
                    credits_of(old(actors)@),
                    Set::empty(),
                    self.actors@,
                    self.billing,
                    old(actors)@,
                );
                &&& billed(*old(actors), *final(actors), c, d)
                &&& final(dispatcher)@ == old(dispatcher)@ + out
            }),
    {
        let ghost order = self.actors@;
        let ghost start_actors = actors@;
        let ghost mut drained: Set<usize> = Set::empty();
        let mut k: usize = 0;
        proof {
            assert(order.skip(0) =~= order);
            assert(actors@.dom() =~= old(actors)@.dom());
            let (c, d, out) = commune_run(
                credits_of(actors@),
                drained,
                order,
                self.billing,
                start_actors,
            );
            assert(old(dispatcher)@ + out =~= dispatcher@ + out);
        }
        while k < self.actors.len()
            invariant
                order == self.actors@,
                start_actors == old(actors)@,
                k <= order.len(),
                all_present(old(actors)@, order),
                billed(*old(actors), *actors, credits_of(actors@), drained),
                commune_run(credits_of(start_actors), Set::empty(), order, self.billing, start_actors) == ({
                    let (c, d, out) = commune_run(
                        credits_of(actors@),
                        drained,
                        order.skip(k as int),
                        self.billing,
                        start_actors,
                    );
                    (c, d, dispatcher@.skip(old(dispatcher)@.len() as int) + out)
                }),
                dispatcher@.len() >= old(dispatcher)@.len(),
                dispatcher@.take(old(dispatcher)@.len() as int) == old(dispatcher)@,
            decreases order.len() - k,
        {
            let index = self.actors[k];
            let ghost before = *actors;
            let ghost sent = dispatcher@;
            assert(actors@.contains_key(index.0));
            let actor = actors.get_mut(index).unwrap();
            actor.billing(self.billing, dispatcher);
            actor.body.tick(dispatcher);
            proof {
                let i = index.0;
                let a = start_actors[i];
                let c = credits_of(before@);
                let dies = c[i] < self.billing;
                let left: u32 = if dies { 0 } else { (c[i] - self.billing) as u32 };
                let death = if dies {
                    seq![ActorLifecycle::Death { id: a.body.id }]
                } else {
                    Seq::empty()
                };
                let births = if drained.contains(i) {
                    Seq::empty()
                } else {
                    births_of(a.body.inside@, a.body.id, a.body.home)
                };
                assert(births_of(Seq::<ActorInside>::empty(), a.body.id, a.body.home) =~= Seq::<
                    ActorLifecycle,
                >::empty());
                assert(dispatcher@ =~= sent + death + births);
                assert(order.skip(k as int)[0] == index);
                assert(order.skip(k as int).drop_first() =~= order.skip(k + 1));
                assert(credits_of(actors@) =~= c.insert(i, left));
                let (c2, d2, out2) = commune_run(
                    credits_of(actors@),
                    drained.insert(i),
                    order.skip(k + 1),
                    self.billing,
                    start_actors,
                );
                let done = sent.skip(old(dispatcher)@.len() as int);
                assert(dispatcher@.skip(old(dispatcher)@.len() as int) =~= done + death + births);
                assert(done + (death + births + out2) =~= (done + death + births) + out2);
                assert(dispatcher@.take(old(dispatcher)@.len() as int) =~= sent.take(
                    old(dispatcher)@.len() as int,
                ));
                drained = drained.insert(i);
                assert forall|j: usize|
                    #![trigger actors@[j]]
                    old(actors)@.contains_key(j) implies {
                    &&& actors@[j].body.id == old(actors)@[j].body.id
                    &&& actors@[j].body.home == old(actors)@[j].body.home
                    &&& actors@[j].body.reserve == old(actors)@[j].body.reserve
                    &&& actors@[j].control == old(actors)@[j].control
                    &&& actors@[j].body.credits == credits_of(actors@)[j]
                    &&& actors@[j].body.inside@ == if drained.contains(j) {
                        Seq::<ActorInside>::empty()
                    } else {
                        old(actors)@[j].body.inside@
                    }
                } by {
                    if j != i {
                        assert(actors@[j] == before@[j]);
                    }
                }
                assert(actors@.dom() =~= old(actors)@.dom());
            }
            k = k + 1;
        }
        proof {
            assert(order.skip(order.len() as int) =~= Seq::<SlabIndex>::empty());
            assert(dispatcher@ =~= old(dispatcher)@ + dispatcher@.skip(
                old(dispatcher)@.len() as int,
            ));
            let (c, d, out) = commune_run(
                credits_of(actors@),
                drained,
                order.skip(order.len() as int),
                self.billing,
                start_actors,
            );
            assert(dispatcher@.skip(old(dispatcher)@.len() as int) + out =~= dispatcher@.skip(
                old(dispatcher)@.len() as int,
            ));
        }
    }
}

impl Realm {
    /// Takes an actor out of every world of the realm.
    pub fn drop_actor(&self, worlds: &mut Slab<World>, actor: SlabIndex)
        requires
            old(worlds).wf(),
            forall|k: int|
                0 <= k < self.worlds@.len() ==> old(worlds)@.contains_key(
                    (#[trigger] self.worlds@[k]).0,
                ),
        ensures
            final(worlds).wf(),
            final(worlds).free() == old(worlds).free(),
            final(worlds).slots().len() == old(worlds).slots().len(),
            final(worlds)@.dom() == old(worlds)@.dom(),
            forall|i: usize|
                #![trigger final(worlds)@[i]]
                old(worlds)@.contains_key(i) ==> {
                    &&& final(worlds)@[i].id == old(worlds)@[i].id
                    &&& final(worlds)@[i].production == old(worlds)@[i].production
                    &&& final(worlds)@[i].actors@ == if self.worlds@.contains(SlabIndex(i)) {
                        without(old(worlds)@[i].actors@, actor)
                    } else {
                        old(worlds)@[i].actors@
                    }
                },
    {
        let mut k: usize = 0;
        while k < self.worlds.len()
            invariant
                k <= self.worlds@.len(),
                worlds.wf(),
                worlds.free() == old(worlds).free(),
                worlds.slots().len() == old(worlds).slots().len(),
                worlds@.dom() == old(worlds)@.dom(),
                forall|j: int|
                    0 <= j < self.worlds@.len() ==> old(worlds)@.contains_key(
                        (#[trigger] self.worlds@[j]).0,
                    ),
                forall|i: usize|
                    #![trigger worlds@[i]]
                    old(worlds)@.contains_key(i) ==> {
                        &&& worlds@[i].id == old(worlds)@[i].id
                        &&& worlds@[i].production == old(worlds)@[i].production
                        &&& worlds@[i].actors@ == if self.worlds@.take(k as int).contains(
                            SlabIndex(i),
                        ) {
                            without(old(worlds)@[i].actors@, actor)
                        } else {
                            old(worlds)@[i].actors@
                        }
                    },
            decreases self.worlds@.len() - k,
        {
            let index = self.worlds[k];
            let ghost before = *worlds;
            assert(old(worlds)@.contains_key(self.worlds@[k as int].0));
            let world = worlds.get_mut(index).unwrap();
            remove_all(&mut world.actors, actor);
            proof {
                assert(self.worlds@.take(k + 1) =~= self.worlds@.take(k as int).push(index));
                assert forall|i: usize|
                    #![trigger worlds@[i]]
                    old(worlds)@.contains_key(i) implies {
                    &&& worlds@[i].id == old(worlds)@[i].id
                    &&& worlds@[i].production == old(worlds)@[i].production
                    &&& worlds@[i].actors@ == if self.worlds@.take(k + 1).contains(SlabIndex(i)) {
                        without(old(worlds)@[i].actors@, actor)
                    } else {
                        old(worlds)@[i].actors@
                    }
                } by {
                    if i == index.0 {
                        assert(SlabIndex(i) == index);
                        assert(self.worlds@.take(k + 1)[k as int] == index);
                        assert(self.worlds@.take(k + 1).contains(SlabIndex(i)));
                        if self.worlds@.take(k as int).contains(SlabIndex(i)) {
                            lemma_without_twice(old(worlds)@[i].actors@, actor);
                        }
                    } else {
                        assert(worlds@[i] == before@[i]);
                        assert(self.worlds@.take(k + 1).contains(SlabIndex(i))
                            == self.worlds@.take(k as int).contains(SlabIndex(i)));
                    }
                }
            }
            k = k + 1;
        }
        assert(self.worlds@.take(self.worlds@.len() as int) =~= self.worlds@);
    }
}

/// Taking out an element twice is taking it out once.
pub proof fn lemma_without_twice(s: Seq<SlabIndex>, x: SlabIndex)
    ensures
        without(without(s, x), x) == without(s, x),
    decreases s.len(),
{
    reveal(Seq::filter);
    if s.len() > 0 {
        lemma_without_twice(s.drop_last(), x);
        let w = without(s.drop_last(), x);
        if s.last() != x {
            assert(without(s, x) == w.push(s.last()));
            assert(w.push(s.last()).drop_last() =~= w);
            assert(w.push(s.last()).last() == s.last());
            assert(without(w.push(s.last()), x) == without(w, x).push(s.last()));
        } else {
            assert(without(s, x) == w);
        }
    } else {
        assert(without(s, x) =~= s);
        assert(without(without(s, x), x) =~= s);
    }
}

} // verus!
