//! The universe: the store of actors and worlds, the commune that bills the
//! actors, the realm whose worlds feed them, and the clock.
use crate::actors::{available, lemma_births_no_deaths, actor_bytes, actor_stop, actor_wf, lemma_actor_roundtrip, parse_actor, actor_parser, actor_writer, actor_plan, births_of, Actor, ActorInside, ActorLifecycle, ActorPlan};
use crate::bytes::{lemma_u16_roundtrip, lemma_u32_roundtrip, lemma_u64_roundtrip, u16_le, u32_le, u64_le};
use crate::storage::{
    read_into, counted_bytes, lemma_counted_roundtrip, counted_prefix, many_prefix, counted_stop, many_stop,
    lemma_many_prefix_whole, lemma_prefix_step, lemma_many_bytes_push, many_bytes, parse_u16,
    lemma_many_step, many_so_far, parse_counted, parse_many, parse_u32, parse_u64, LoadError, Parsed,
    Reader, Writer,
};
use crate::depot::{
    lemma_occupied_slots_gap, lemma_occupied_slots_step, occupied_slots,
    lemma_occupied_bytes_step, lemma_occupied_from, lemma_occupied_gap, lemma_occupied_has,
    lemma_occupied_len, occupied, Slab, SlabIndex,
};
use crate::dispatcher::Dispatcher;
use crate::places::{
    all_present, billed, commune_run, other_than, credited, credits_of, realm_feed, same_but_credits, without, Container, Realm,
    World, WorldRecord, world_record_parser, parse_world_record, slots_for, world_plan, lemma_world_via_record, parse_world, lemma_record_ids_known, ids_of, world_record_writer, world_stop, world_stopper, lemma_world_record_roundtrip, world_bytes,
};
use crate::control::{
    fresh_seed, lemma_spawner_children, requests_made, spawn_requests, units_plan, BirthCredit, ChildMaker, Spawner,
};
use crate::blueprint::{parse_plan, plan_of, plan_wf, Plan};
use crate::values::{seeds_plan, Seed};
use std::collections::HashMap;
use vstd::prelude::*;

verus! {

broadcast use vstd::std_specs::hash::group_hash_axioms;

/// Where the actors and worlds are kept, and how an actor is found by id.
pub struct Storage {
    pub actors: Slab<Actor>,
    pub worlds: Slab<World>,
    pub alookup: HashMap<u64, SlabIndex>,
}

impl Default for Storage {
    fn default() -> (r: Self)
        ensures
            r.actors.wf(),
            r.actors@ == Map::<usize, Actor>::empty(),
            r.actors.slots().len() == 0,
            r.worlds.wf(),
            r.worlds@ == Map::<usize, World>::empty(),
            r.worlds.slots().len() == 0,
            r.alookup@ == Map::<u64, SlabIndex>::empty(),
    {
        Storage { actors: Slab::new(), worlds: Slab::new(), alookup: HashMap::new() }
    }
}

/// The universe.
pub struct Universe {
    pub timetick: u64,
    pub lastseqid: u64,
    pub storage: Storage,
    pub commune: Container,
    pub realm: Realm,
    pub dispatcher: Dispatcher<ActorLifecycle>,
}

/// The test that passes every slot whose index is outside `gone`.
pub open spec fn outside(gone: Set<usize>) -> spec_fn(SlabIndex) -> bool {
    |y: SlabIndex| !gone.contains(y.0)
}

/// `s` without the slots whose indices are in `gone`, in order.
pub open spec fn without_all(s: Seq<SlabIndex>, gone: Set<usize>) -> Seq<SlabIndex> {
    s.filter(outside(gone))
}

/// Every element of a filtered sequence is in the sequence and passes.
pub proof fn lemma_filter_elems(s: Seq<SlabIndex>, p: spec_fn(SlabIndex) -> bool)
    ensures
        forall|j: int|
            0 <= j < s.filter(p).len() ==> s.contains(#[trigger] s.filter(p)[j]) && p(
                s.filter(p)[j],
            ),
{
    broadcast use vstd::seq_lib::group_filter_ensures;

    assert forall|j: int| 0 <= j < s.filter(p).len() implies s.contains(
        #[trigger] s.filter(p)[j],
    ) && p(s.filter(p)[j]) by {
        s.lemma_filter_contains_rev(p, s.filter(p)[j]);
    }
}

/// Filtering keeps a sequence free of duplicates.
pub proof fn lemma_filter_no_dup(s: Seq<SlabIndex>, p: spec_fn(SlabIndex) -> bool)
    requires
        s.no_duplicates(),
    ensures
        s.filter(p).no_duplicates(),
    decreases s.len(),
{
    reveal(Seq::filter);
    if s.len() > 0 {
        lemma_filter_no_dup(s.drop_last(), p);
        let f = s.drop_last().filter(p);
        if p(s.last()) {
            lemma_filter_elems(s.drop_last(), p);
            assert(!s.drop_last().contains(s.last()));
            assert forall|i: int, j: int|
                0 <= i < f.push(s.last()).len() && 0 <= j < f.push(s.last()).len() && i != j
                    implies f.push(s.last())[i] != f.push(s.last())[j] by {
                if i < f.len() && j < f.len() {
                } else if i < f.len() {
                    assert(s.drop_last().contains(f[i]));
                } else {
                    assert(s.drop_last().contains(f[j]));
                }
            }
        }
    }
}

/// Filtering by a test that every element passes keeps the sequence.
pub proof fn lemma_filter_all(s: Seq<SlabIndex>, p: spec_fn(SlabIndex) -> bool)
    requires
        forall|y: SlabIndex| #[trigger] p(y),
    ensures
        s.filter(p) == s,
    decreases s.len(),
{
    reveal(Seq::filter);
    if s.len() > 0 {
        lemma_filter_all(s.drop_last(), p);
        assert(s.drop_last().push(s.last()) =~= s);
    } else {
        assert(s.filter(p) =~= s);
    }
}

/// Filtering twice is filtering once by both tests.
pub proof fn lemma_filter_filter(
    s: Seq<SlabIndex>,
    p: spec_fn(SlabIndex) -> bool,
    q: spec_fn(SlabIndex) -> bool,
)
    ensures
        s.filter(p).filter(q) == s.filter(|y: SlabIndex| p(y) && q(y)),
    decreases s.len(),
{
    reveal(Seq::filter);
    if s.len() > 0 {
        lemma_filter_filter(s.drop_last(), p, q);
        let f = s.drop_last().filter(p);
        if p(s.last()) {
            assert(f.push(s.last()).drop_last() =~= f);
        }
    } else {
        assert(s.filter(p).filter(q) =~= s.filter(|y: SlabIndex| p(y) && q(y)));
    }
}

/// Taking out one more element after taking out a set of them.
pub proof fn lemma_without_more(s: Seq<SlabIndex>, gone: Set<usize>, x: SlabIndex)
    ensures
        without(without_all(s, gone), x) == without_all(s, gone.insert(x.0)),
{
    let p = outside(gone);
    let q = other_than(x);
    lemma_filter_filter(s, p, q);
    assert((|y: SlabIndex| p(y) && q(y)) =~= outside(gone.insert(x.0)));
}

/// No two death messages name the same actor.
pub open spec fn deaths_distinct(msgs: Seq<ActorLifecycle>) -> bool {
    forall|k1: int, k2: int|
        0 <= k1 < k2 < msgs.len() && #[trigger] msgs[k1] is Death && #[trigger] msgs[k2] is Death
            ==> msgs[k1]->id != msgs[k2]->id
}

/// Every death message names an id of `ids`.
pub open spec fn deaths_within(msgs: Seq<ActorLifecycle>, ids: Set<u64>) -> bool {
    forall|k: int| 0 <= k < msgs.len() && #[trigger] msgs[k] is Death ==> ids.contains(msgs[k]->id)
}

/// The ids that the death messages name.
pub open spec fn death_ids(msgs: Seq<ActorLifecycle>) -> Set<u64> {
    Set::new(|id: u64| exists|k: int| 0 <= k < msgs.len() && #[trigger] msgs[k] == (ActorLifecycle::Death { id }))
}

/// The ids of the actors in the slots `order`.
pub open spec fn id_set(actors: Map<usize, Actor>, order: Seq<SlabIndex>) -> Set<u64> {
    Set::new(|id: u64| exists|k: int| 0 <= k < order.len() && actors[(#[trigger] order[k]).0].body.id == id)
}

/// The slots where `lookup` finds the ids of `ids`.
pub open spec fn slots_of(lookup: Map<u64, SlabIndex>, ids: Set<u64>) -> Set<usize> {
    Set::new(|i: usize| exists|id: u64| #[trigger] ids.contains(id) && lookup[id].0 == i)
}

proof fn lemma_deaths_concat(a: Seq<ActorLifecycle>, b: Seq<ActorLifecycle>, sa: Set<u64>, sb: Set<u64>)
    requires
        deaths_distinct(a),
        deaths_distinct(b),
        deaths_within(a, sa),
        deaths_within(b, sb),
        sa.disjoint(sb),
    ensures
        deaths_distinct(a + b),
        deaths_within(a + b, sa + sb),
{
    let c = a + b;
    assert forall|k1: int, k2: int|
        0 <= k1 < k2 < c.len() && #[trigger] c[k1] is Death && #[trigger] c[k2] is Death
            implies c[k1]->id != c[k2]->id by {
        if k2 < a.len() {
        } else if k1 >= a.len() {
            assert(b[k1 - a.len()] == c[k1]);
            assert(b[k2 - a.len()] == c[k2]);
        } else {
            assert(a[k1] == c[k1]);
            assert(b[k2 - a.len()] == c[k2]);
            assert(sa.contains(c[k1]->id));
            assert(sb.contains(c[k2]->id));
        }
    }
    assert forall|k: int| 0 <= k < c.len() && #[trigger] c[k] is Death implies (sa + sb).contains(c[k]->id) by {
        if k < a.len() {
            assert(a[k] == c[k]);
        } else {
            assert(b[k - a.len()] == c[k]);
        }
    }
}

/// Billing the commune announces the death of actors of the commune only,
/// each at most once, when the lookup tells its actors apart by id.
pub proof fn lemma_commune_deaths(
    credits: Map<usize, u32>,
    drained: Set<usize>,
    order: Seq<SlabIndex>,
    billing: u32,
    actors: Map<usize, Actor>,
    lookup: Map<u64, SlabIndex>,
)
    requires
        order.no_duplicates(),
        forall|k: int| 0 <= k < order.len() ==> lookup[actors[(#[trigger] order[k]).0].body.id] == order[k],
    ensures
        ({
            let (c, d, out) = commune_run(credits, drained, order, billing, actors);
            deaths_distinct(out) && deaths_within(out, id_set(actors, order))
        }),
    decreases order.len(),
{
    if order.len() > 0 {
        let i = order[0].0;
        let a = actors[i];
        let dies = credits[i] < billing;
        let left: u32 = if dies { 0 } else { (credits[i] - billing) as u32 };
        let death = if dies {
            seq![ActorLifecycle::Death { id: a.body.id }]
        } else {
            Seq::empty()
        };
        let births = if drained.contains(i) {
            Seq::empty()
        } else {
            births_of(a.body.inside@, a.body.id, a.body.home)
        };
        let rest = order.drop_first();
        assert forall|k: int| 0 <= k < rest.len() implies lookup[actors[(#[trigger] rest[k]).0].body.id] == rest[k] by {
            assert(rest[k] == order[k + 1]);
        }
        lemma_commune_deaths(credits.insert(i, left), drained.insert(i), rest, billing, actors, lookup);
        lemma_births_no_deaths(a.body.inside@, a.body.id, a.body.home);
        let (c, d, out) = commune_run(credits.insert(i, left), drained.insert(i), rest, billing, actors);
        let first: Set<u64> = set![a.body.id];
        assert(first.disjoint(id_set(actors, rest))) by {
            if id_set(actors, rest).contains(a.body.id) {
                let k = choose|k: int| 0 <= k < rest.len() && actors[(#[trigger] rest[k]).0].body.id == a.body.id;
                assert(rest[k] == order[k + 1]);
                assert(lookup[a.body.id] == order[0]);
                assert(lookup[a.body.id] == order[k + 1]);
            }
        }
        assert(deaths_within(death + births, first));
        assert(deaths_distinct(death + births));
        lemma_deaths_concat(death + births, out, first, id_set(actors, rest));
        assert((first + id_set(actors, rest)).subset_of(id_set(actors, order))) by {
            assert forall|id: u64| (first + id_set(actors, rest)).contains(id) implies id_set(actors, order).contains(id) by {
                if id == a.body.id {
                    assert(actors[order[0].0].body.id == id);
                } else {
                    let k = choose|k: int| 0 <= k < rest.len() && actors[(#[trigger] rest[k]).0].body.id == id;
                    assert(rest[k] == order[k + 1]);
                    assert(actors[order[k + 1].0].body.id == id);
                }
            }
        }
    }
}

/// The ids of the actor records.
pub open spec fn plan_ids(actors: Seq<ActorPlan>) -> Set<u64> {
    Set::new(|id: u64| exists|k: int| 0 <= k < actors.len() && (#[trigger] actors[k]).id == id)
}

/// The lookup after each actor record, in turn, is entered with its slot.
pub open spec fn lookup_after(
    lookup: Map<u64, SlabIndex>,
    actors: Seq<ActorPlan>,
    slots: Seq<SlabIndex>,
) -> Map<u64, SlabIndex>
    decreases actors.len(),
{
    if actors.len() == 0 || slots.len() == 0 {
        lookup
    } else {
        lookup_after(lookup, actors.drop_last(), slots.drop_last()).insert(
            actors.last().id,
            slots.last(),
        )
    }
}

pub proof fn lemma_lookup_after_dom(
    lookup: Map<u64, SlabIndex>,
    actors: Seq<ActorPlan>,
    slots: Seq<SlabIndex>,
)
    requires
        actors.len() == slots.len(),
    ensures
        lookup_after(lookup, actors, slots).dom() == lookup.dom() + plan_ids(actors),
    decreases actors.len(),
{
    if actors.len() > 0 {
        lemma_lookup_after_dom(lookup, actors.drop_last(), slots.drop_last());
        assert(plan_ids(actors) =~= plan_ids(actors.drop_last()).insert(actors.last().id)) by {
            assert forall|id: u64| #[trigger] plan_ids(actors).contains(id) implies plan_ids(
                actors.drop_last(),
            ).insert(actors.last().id).contains(id) by {
                let k = choose|k: int| 0 <= k < actors.len() && (#[trigger] actors[k]).id == id;
                if k < actors.len() - 1 {
                    assert(actors.drop_last()[k] == actors[k]);
                }
            }
            assert forall|id: u64| #[trigger] plan_ids(actors.drop_last()).insert(
                actors.last().id,
            ).contains(id) implies plan_ids(actors).contains(id) by {
                if id != actors.last().id {
                    let k = choose|k: int|
                        0 <= k < actors.drop_last().len() && (#[trigger] actors.drop_last()[k]).id
                            == id;
                    assert(actors[k] == actors.drop_last()[k]);
                } else {
                    assert(actors[actors.len() - 1].id == id);
                }
            }
        }
        assert(lookup_after(lookup, actors, slots).dom() =~= lookup.dom() + plan_ids(actors));
    } else {
        assert(plan_ids(actors) =~= Set::<u64>::empty());
        assert(lookup.dom() + Set::<u64>::empty() =~= lookup.dom());
    }
}

/// What a universe file holds: the clock, the last sequence id, the
/// commune's billing, the actor records and the world records.
pub struct UniverseFile {
    pub timetick: u64,
    pub lastseqid: u64,
    pub billing: u32,
    pub actors: Seq<ActorPlan>,
    pub worlds: Seq<WorldRecord>,
}

/// Reads a universe file whose worlds may name the actors of `known` and
/// those of the file.
#[verifier::opaque]
pub open spec fn parse_universe(s: Seq<u8>, known: Set<u64>) -> Parsed<UniverseFile> {
    match parse_u64(s) {
        Err(e) => Err(e),
        Ok((timetick, _)) => match parse_u64(s.skip(8)) {
            Err(e) => Err(e),
            Ok((lastseqid, _)) => match parse_u32(s.skip(16)) {
                Err(e) => Err(e),
                Ok((billing, _)) => match parse_counted(s.skip(20), actor_parser()) {
                    Err(e) => Err(e),
                    Ok((actors, n1)) => match parse_counted(
                        s.skip(20 + n1 as int),
                        world_record_parser(known + plan_ids(actors)),
                    ) {
                        Err(e) => Err(e),
                        Ok((worlds, n2)) => Ok(
                            (
                                UniverseFile { timetick, lastseqid, billing, actors, worlds },
                                20 + n1 + n2,
                            ),
                        ),
                    },
                },
            },
        },
    }
}

/// The slots of `fresh`, as a set of indices.
pub open spec fn fresh_set(fresh: Seq<SlabIndex>) -> Set<usize> {
    Set::new(|i: usize| exists|k: int| 0 <= k < fresh.len() && (#[trigger] fresh[k]).0 == i)
}

/// When `before` has no freed slot, `after` has none either, and its items
/// in slot order are those of `before` followed by items whose views are
/// `items`.
pub open spec fn appended_at_end<T, V>(
    before: Slab<T>,
    after: Slab<T>,
    view: spec_fn(T) -> V,
    items: Seq<V>,
) -> bool {
    before.free().len() == 0 ==> after.free().len() == 0 && occupied(after.slots()).map_values(
        view,
    ) == occupied(before.slots()).map_values(view) + items
}

proof fn lemma_appended_step<T, V>(
    s0: Slab<T>,
    prev: Slab<T>,
    next: Slab<T>,
    view: spec_fn(T) -> V,
    items: Seq<V>,
    x: T,
)
    requires
        appended_at_end(s0, prev, view, items),
        prev.free().len() == 0 ==> next.free().len() == 0 && next.slots() == prev.slots().push(
            Some(x),
        ),
    ensures
        appended_at_end(s0, next, view, items.push(view(x))),
{
    if s0.free().len() == 0 {
        let slots = next.slots();
        assert(slots.drop_last() =~= prev.slots());
        assert(occupied(slots) == occupied(prev.slots()).push(x));
        assert(occupied(slots).map_values(view) =~= occupied(prev.slots()).map_values(view).push(
            view(x),
        ));
        assert(occupied(s0.slots()).map_values(view) + items.push(view(x)) =~= (occupied(
            s0.slots(),
        ).map_values(view) + items).push(view(x)));
    }
}

/// `after` is `before` with the actor records `acts` stored in new slots,
/// appended to the commune in order and entered in the lookup in order.
pub open spec fn loaded(before: Universe, after: Universe, acts: Seq<ActorPlan>) -> bool {
    let fresh = after.commune.actors@.skip(before.commune.actors@.len() as int);
    let a0 = before.storage.actors@;
    let a1 = after.storage.actors@;
    &&& after.commune.actors@.len() >= before.commune.actors@.len()
    &&& after.commune.actors@ == before.commune.actors@ + fresh
    &&& fresh.len() == acts.len()
    &&& fresh.no_duplicates()
    &&& a1.dom() == a0.dom() + fresh_set(fresh)
    &&& forall|i: usize| #[trigger] a0.contains_key(i) ==> a1[i] == a0[i]
    &&& forall|k: int|
        0 <= k < fresh.len() ==> !a0.contains_key((#[trigger] fresh[k]).0) && actor_plan(
            a1[fresh[k].0],
        ) == acts[k] && a1[fresh[k].0].body.inside@ == Seq::<ActorInside>::empty()
    &&& after.storage.alookup@ == lookup_after(before.storage.alookup@, acts, fresh)
}

proof fn lemma_loaded_none(u: Universe, v: Universe)
    requires
        v.commune.actors@ == u.commune.actors@,
        v.storage.actors@ == u.storage.actors@,
        v.storage.alookup@ == u.storage.alookup@,
    ensures
        loaded(u, v, Seq::empty()),
{
    assert(v.commune.actors@.skip(u.commune.actors@.len() as int) =~= Seq::<SlabIndex>::empty());
    assert(u.commune.actors@ + Seq::<SlabIndex>::empty() =~= u.commune.actors@);
    assert(u.storage.actors@.dom() + fresh_set(Seq::<SlabIndex>::empty()) =~= u.storage.actors@.dom());
}

proof fn lemma_worlds_loaded_none(u: Universe, v: Universe, lookup: Map<u64, SlabIndex>)
    requires
        v.realm.worlds@ == u.realm.worlds@,
        v.storage.worlds@ == u.storage.worlds@,
    ensures
        worlds_loaded(u, v, Seq::empty(), lookup),
{
    assert(v.realm.worlds@.skip(u.realm.worlds@.len() as int) =~= Seq::<SlabIndex>::empty());
    assert(u.realm.worlds@ + Seq::<SlabIndex>::empty() =~= u.realm.worlds@);
    assert(u.storage.worlds@.dom() + fresh_set(Seq::<SlabIndex>::empty()) =~= u.storage.worlds@.dom());
}

proof fn lemma_loaded_step(
    u0: Universe,
    prev: Universe,
    next: Universe,
    acts: Seq<ActorPlan>,
    slot: SlabIndex,
    plan: ActorPlan,
)
    requires
        loaded(u0, prev, acts),
        !prev.storage.actors@.contains_key(slot.0),
        next.commune.actors@ == prev.commune.actors@.push(slot),
        next.storage.actors@.contains_key(slot.0),
        next.storage.actors@ == prev.storage.actors@.insert(slot.0, next.storage.actors@[slot.0]),
        actor_plan(next.storage.actors@[slot.0]) == plan,
        next.storage.actors@[slot.0].body.inside@ == Seq::<ActorInside>::empty(),
        next.storage.alookup@ == prev.storage.alookup@.insert(plan.id, slot),
    ensures
        loaded(u0, next, acts.push(plan)),
{
    let c0 = u0.commune.actors@;
    let fresh = prev.commune.actors@.skip(c0.len() as int);
    let fresh2 = next.commune.actors@.skip(c0.len() as int);
    assert(fresh2 =~= fresh.push(slot));
    assert(next.commune.actors@ =~= c0 + fresh2);
    assert(fresh2.no_duplicates()) by {
        assert forall|k: int| 0 <= k < fresh.len() implies #[trigger] fresh[k] != slot by {
            assert(fresh_set(fresh).contains(fresh[k].0));
        }
    }
    assert(fresh_set(fresh2) =~= fresh_set(fresh).insert(slot.0)) by {
        assert forall|i: usize| #[trigger] fresh_set(fresh2).contains(i) implies fresh_set(fresh).insert(slot.0).contains(i) by {
            let k = choose|k: int| 0 <= k < fresh2.len() && (#[trigger] fresh2[k]).0 == i;
            if k < fresh.len() {
                assert(fresh2[k] == fresh[k]);
            }
        }
        assert forall|i: usize| #[trigger] fresh_set(fresh).insert(slot.0).contains(i) implies fresh_set(fresh2).contains(i) by {
            if i == slot.0 {
                assert(fresh2[fresh.len() as int].0 == i);
            } else {
                let k = choose|k: int| 0 <= k < fresh.len() && (#[trigger] fresh[k]).0 == i;
                assert(fresh2[k] == fresh[k]);
            }
        }
    }
    assert(next.storage.actors@.dom() =~= u0.storage.actors@.dom() + fresh_set(fresh2));
    assert(fresh2.drop_last() =~= fresh);
    assert(acts.push(plan).drop_last() =~= acts);
    assert forall|k: int|
        0 <= k < fresh2.len() implies !u0.storage.actors@.contains_key((#[trigger] fresh2[k]).0)
        && actor_plan(next.storage.actors@[fresh2[k].0]) == acts.push(plan)[k]
        && next.storage.actors@[fresh2[k].0].body.inside@ == Seq::<ActorInside>::empty() by {
        if k < fresh.len() {
            assert(fresh2[k] == fresh[k]);
            assert(prev.storage.actors@.contains_key(fresh[k].0));
            assert(fresh[k].0 != slot.0);
        } else {
            assert(fresh2[k] == slot);
            if u0.storage.actors@.contains_key(slot.0) {
                assert(prev.storage.actors@.contains_key(slot.0));
            }
        }
    }
}

/// `after` is `before` with the world records `recs` stored in new slots,
/// each with its actors found by id in the lookup, and appended to the realm
/// in order.
pub open spec fn worlds_loaded(
    before: Universe,
    after: Universe,
    recs: Seq<WorldRecord>,
    lookup: Map<u64, SlabIndex>,
) -> bool {
    let fresh = after.realm.worlds@.skip(before.realm.worlds@.len() as int);
    let w0 = before.storage.worlds@;
    let w1 = after.storage.worlds@;
    &&& after.realm.worlds@.len() >= before.realm.worlds@.len()
    &&& after.realm.worlds@ == before.realm.worlds@ + fresh
    &&& fresh.len() == recs.len()
    &&& fresh.no_duplicates()
    &&& w1.dom() == w0.dom() + fresh_set(fresh)
    &&& forall|i: usize| #[trigger] w0.contains_key(i) ==> w1[i] == w0[i]
    &&& forall|k: int|
        0 <= k < fresh.len() ==> !w0.contains_key((#[trigger] fresh[k]).0) && w1[fresh[k].0].id
            == recs[k].id && w1[fresh[k].0].production == recs[k].production
            && w1[fresh[k].0].actors@ == slots_for(recs[k].actor_ids, lookup)
}

proof fn lemma_worlds_loaded_step(
    u0: Universe,
    prev: Universe,
    next: Universe,
    recs: Seq<WorldRecord>,
    slot: SlabIndex,
    rec: WorldRecord,
)
    requires
        worlds_loaded(u0, prev, recs, u0.storage.alookup@),
        !prev.storage.worlds@.contains_key(slot.0),
        next.realm.worlds@ == prev.realm.worlds@.push(slot),
        next.storage.worlds@.contains_key(slot.0),
        next.storage.worlds@ == prev.storage.worlds@.insert(slot.0, next.storage.worlds@[slot.0]),
        next.storage.worlds@[slot.0].id == rec.id,
        next.storage.worlds@[slot.0].production == rec.production,
        next.storage.worlds@[slot.0].actors@ == slots_for(rec.actor_ids, u0.storage.alookup@),
    ensures
        worlds_loaded(u0, next, recs.push(rec), u0.storage.alookup@),
{
    let c0 = u0.realm.worlds@;
    let fresh = prev.realm.worlds@.skip(c0.len() as int);
    let fresh2 = next.realm.worlds@.skip(c0.len() as int);
    assert(fresh2 =~= fresh.push(slot));
    assert(next.realm.worlds@ =~= c0 + fresh2);
    assert(fresh2.no_duplicates()) by {
        assert forall|k: int| 0 <= k < fresh.len() implies #[trigger] fresh[k] != slot by {
            assert(fresh_set(fresh).contains(fresh[k].0));
        }
    }
    assert(fresh_set(fresh2) =~= fresh_set(fresh).insert(slot.0)) by {
        assert forall|i: usize| #[trigger] fresh_set(fresh2).contains(i) implies fresh_set(fresh).insert(slot.0).contains(i) by {
            let k = choose|k: int| 0 <= k < fresh2.len() && (#[trigger] fresh2[k]).0 == i;
            if k < fresh.len() {
                assert(fresh2[k] == fresh[k]);
            }
        }
        assert forall|i: usize| #[trigger] fresh_set(fresh).insert(slot.0).contains(i) implies fresh_set(fresh2).contains(i) by {
            if i == slot.0 {
                assert(fresh2[fresh.len() as int].0 == i);
            } else {
                let k = choose|k: int| 0 <= k < fresh.len() && (#[trigger] fresh[k]).0 == i;
                assert(fresh2[k] == fresh[k]);
            }
        }
    }
    assert(next.storage.worlds@.dom() =~= u0.storage.worlds@.dom() + fresh_set(fresh2));
    assert forall|k: int|
        0 <= k < fresh2.len() implies !u0.storage.worlds@.contains_key((#[trigger] fresh2[k]).0)
        && next.storage.worlds@[fresh2[k].0].id == recs.push(rec)[k].id
        && next.storage.worlds@[fresh2[k].0].production == recs.push(rec)[k].production
        && next.storage.worlds@[fresh2[k].0].actors@ == slots_for(recs.push(rec)[k].actor_ids, u0.storage.alookup@) by {
        if k < fresh.len() {
            assert(fresh2[k] == fresh[k]);
            assert(prev.storage.worlds@.contains_key(fresh[k].0));
            assert(fresh[k].0 != slot.0);
        } else {
            assert(fresh2[k] == slot);
            if u0.storage.worlds@.contains_key(slot.0) {
                assert(prev.storage.worlds@.contains_key(slot.0));
            }
        }
    }
}

/// Nothing of the actors and worlds of `before` has changed in `after`,
/// nor its billing.
pub open spec fn untouched(before: Universe, after: Universe) -> bool {
    &&& after.commune.billing == before.commune.billing
    &&& loaded(before, after, Seq::empty())
    &&& worlds_loaded(before, after, Seq::empty(), after.storage.alookup@)
}

/// What reading a universe file from `s` into `before` has left in `after`
/// when the reading failed: each part read before the failure, the actor
/// and world records read before the one that failed, and nothing of that
/// one.
pub open spec fn universe_partial(before: Universe, after: Universe, s: Seq<u8>, known: Set<u64>) -> bool {
    &&& after.dispatcher == before.dispatcher
    &&& match parse_u64(s) {
        Err(_) => after.timetick == before.timetick && after.lastseqid == before.lastseqid
            && untouched(before, after),
        Ok((timetick, _)) => after.timetick == timetick && match parse_u64(s.skip(8)) {
            Err(_) => after.lastseqid == before.lastseqid && untouched(before, after),
            Ok((lastseqid, _)) => after.lastseqid == lastseqid && match parse_u32(s.skip(16)) {
                Err(_) => untouched(before, after),
                Ok((billing, _)) => {
                    &&& after.commune.billing == billing
                    &&& loaded(before, after, counted_prefix(s.skip(20), actor_parser()))
                    &&& match parse_counted(s.skip(20), actor_parser()) {
                        Err(_) => worlds_loaded(before, after, Seq::empty(), after.storage.alookup@),
                        Ok((actors, n1)) => worlds_loaded(
                            before,
                            after,
                            counted_prefix(
                                s.skip(20 + n1 as int),
                                world_record_parser(known + plan_ids(actors)),
                            ),
                            after.storage.alookup@,
                        ),
                    }
                },
            },
        },
    }
}

/// `after` is `before` with what the universe file `f` holds read into it:
/// the clock, the last sequence id and the billing taken from it, its actors
/// stored, added to the commune and entered in the lookup, its worlds stored
/// with their actors found by id, and added to the realm. Into stores with no
/// freed slot, the actors and worlds go in new slots at the end, in file
/// order.
pub open spec fn universe_loaded(before: Universe, after: Universe, f: UniverseFile) -> bool {
    &&& after.timetick == f.timetick
    &&& after.lastseqid == f.lastseqid
    &&& after.commune.billing == f.billing
    &&& loaded(before, after, f.actors)
    &&& worlds_loaded(before, after, f.worlds, after.storage.alookup@)
    &&& appended_at_end(before.storage.actors, after.storage.actors, actor_planner(), f.actors)
    &&& appended_at_end(
        before.storage.worlds,
        after.storage.worlds,
        world_recorder(after.storage.actors@),
        f.worlds,
    )
    &&& after.dispatcher == before.dispatcher
}

/// The record of a world as written: its actors named by id.
pub open spec fn world_record(w: World, actors: Map<usize, Actor>) -> WorldRecord {
    WorldRecord { id: w.id, production: w.production, actor_ids: ids_of(actors, w.actors@) }
}

pub open spec fn actor_stopper() -> spec_fn(Seq<u8>) -> nat {
    |s: Seq<u8>| actor_stop(s)
}

/// How far reading a universe file from `s` gets before it fails: past the
/// fields read before the failure, the actor records read before the one
/// that fails, or all of them and the world records read before the one
/// that fails.
pub open spec fn universe_stop(s: Seq<u8>, known: Set<u64>) -> nat {
    if parse_u64(s) is Err {
        0
    } else if parse_u64(s.skip(8)) is Err {
        8
    } else if parse_u32(s.skip(16)) is Err {
        16
    } else {
        match parse_counted(s.skip(20), actor_parser()) {
            Err(_) => 20 + counted_stop(s.skip(20), actor_parser(), actor_stopper()),
            Ok((actors, n1)) => 20 + n1 + counted_stop(
                s.skip(20 + n1 as int),
                world_record_parser(known + plan_ids(actors)),
                world_stopper(known + plan_ids(actors)),
            ),
        }
    }
}

pub open spec fn actor_planner() -> spec_fn(Actor) -> ActorPlan {
    |a: Actor| actor_plan(a)
}

pub open spec fn world_recorder(actors: Map<usize, Actor>) -> spec_fn(World) -> WorldRecord {
    |w: World| world_record(w, actors)
}

/// The actor records of a universe's store, in slot order.
pub open spec fn saved_actors(u: Universe) -> Seq<ActorPlan> {
    occupied(u.storage.actors.slots()).map_values(actor_planner())
}

/// The world records of a universe's store, in slot order.
pub open spec fn saved_worlds(u: Universe) -> Seq<WorldRecord> {
    occupied(u.storage.worlds.slots()).map_values(world_recorder(u.storage.actors@))
}

/// The bytes of a universe file: the clock, the last sequence id, the
/// commune's billing, the count and records of the actors, the count and
/// records of the worlds.
pub open spec fn universe_bytes(f: UniverseFile) -> Seq<u8> {
    u64_le(f.timetick) + (u64_le(f.lastseqid) + (u32_le(f.billing) + (counted_bytes(
        f.actors,
        actor_writer(),
    ) + counted_bytes(f.worlds, world_record_writer()))))
}

/// What a universe writes to its file.
pub open spec fn universe_file(u: Universe) -> UniverseFile {
    UniverseFile {
        timetick: u.timetick,
        lastseqid: u.lastseqid,
        billing: u.commune.billing,
        actors: saved_actors(u),
        worlds: saved_worlds(u),
    }
}

/// A universe file fits its format: at most `u32::MAX` actor records and
/// world records, each actor record well-formed, and each world naming at
/// most `u32::MAX` actors, each by an id of `known` or of one of the file's
/// actors.
pub open spec fn file_wf(f: UniverseFile, known: Set<u64>) -> bool {
    &&& f.actors.len() <= u32::MAX
    &&& f.worlds.len() <= u32::MAX
    &&& forall|i: int| 0 <= i < f.actors.len() ==> actor_wf(#[trigger] f.actors[i])
    &&& forall|k: int|
        0 <= k < f.worlds.len() ==> (#[trigger] f.worlds[k]).actor_ids.len() <= u32::MAX
            && forall|j: int|
            0 <= j < f.worlds[k].actor_ids.len() ==> (known + plan_ids(f.actors)).contains(
                #[trigger] f.worlds[k].actor_ids[j],
            )
}

/// Reading back the bytes of a universe file that fits its format gives the
/// file, and stops where those bytes end.
#[verifier::spinoff_prover]
pub proof fn lemma_universe_roundtrip(f: UniverseFile, known: Set<u64>, rest: Seq<u8>)
    requires
        file_wf(f, known),
    ensures
        parse_universe(universe_bytes(f) + rest, known) == Ok::<(UniverseFile, nat), LoadError>(
            (f, universe_bytes(f).len()),
        ),
{
    let ab = counted_bytes(f.actors, actor_writer());
    let wb = counted_bytes(f.worlds, world_record_writer());
    let x4 = ab + (wb + rest);
    let x3 = u32_le(f.billing) + x4;
    let x2 = u64_le(f.lastseqid) + x3;
    let s = universe_bytes(f) + rest;
    lemma_u64_roundtrip(f.timetick, x2);
    lemma_u64_roundtrip(f.lastseqid, x3);
    lemma_u32_roundtrip(f.billing, x4);
    assert(s =~= u64_le(f.timetick) + x2);
    assert(s.skip(8) =~= x2);
    assert(s.skip(16) =~= x3);
    assert(s.skip(20) =~= x4);
    lemma_actor_records_roundtrip(f.actors, wb + rest);
    assert(s.skip(20 + ab.len() as int) =~= wb + rest);
    lemma_world_records_roundtrip(f.worlds, known + plan_ids(f.actors), rest);
    lemma_universe_from_parts(s, f, known, ab.len(), wb.len());
}

#[verifier::spinoff_prover]
proof fn lemma_actor_records_roundtrip(actors: Seq<ActorPlan>, rest: Seq<u8>)
    requires
        actors.len() <= u32::MAX,
        forall|i: int| 0 <= i < actors.len() ==> actor_wf(#[trigger] actors[i]),
    ensures
        parse_counted(counted_bytes(actors, actor_writer()) + rest, actor_parser()) == Ok::<
            (Seq<ActorPlan>, nat),
            LoadError,
        >((actors, counted_bytes(actors, actor_writer()).len())),
{
    assert forall|i: int, r: Seq<u8>|
        #![trigger actor_parser()(actor_writer()(actors[i]) + r)]
        0 <= i < actors.len() implies actor_parser()(actor_writer()(actors[i]) + r) == Ok::<
            (ActorPlan, nat),
            LoadError,
        >((actors[i], actor_writer()(actors[i]).len())) by {
        lemma_actor_roundtrip(actors[i], r);
    }
    lemma_counted_roundtrip(actors, rest, actor_parser(), actor_writer());
}

#[verifier::spinoff_prover]
proof fn lemma_world_records_roundtrip(worlds: Seq<WorldRecord>, known: Set<u64>, rest: Seq<u8>)
    requires
        worlds.len() <= u32::MAX,
        forall|k: int|
            0 <= k < worlds.len() ==> (#[trigger] worlds[k]).actor_ids.len() <= u32::MAX
                && forall|j: int|
                0 <= j < worlds[k].actor_ids.len() ==> known.contains(
                    #[trigger] worlds[k].actor_ids[j],
                ),
    ensures
        parse_counted(counted_bytes(worlds, world_record_writer()) + rest, world_record_parser(known))
            == Ok::<(Seq<WorldRecord>, nat), LoadError>(
            (worlds, counted_bytes(worlds, world_record_writer()).len()),
        ),
{
    assert forall|k: int, r: Seq<u8>|
        #![trigger world_record_parser(known)(world_record_writer()(worlds[k]) + r)]
        0 <= k < worlds.len() implies world_record_parser(known)(
            world_record_writer()(worlds[k]) + r,
        ) == Ok::<(WorldRecord, nat), LoadError>(
            (worlds[k], world_record_writer()(worlds[k]).len()),
        ) by {
        lemma_world_record_roundtrip(worlds[k], known, r);
    }
    lemma_counted_roundtrip(worlds, rest, world_record_parser(known), world_record_writer());
}

#[verifier::spinoff_prover]
proof fn lemma_universe_from_parts(s: Seq<u8>, f: UniverseFile, known: Set<u64>, n1: nat, n2: nat)
    requires
        parse_u64(s) == Ok::<(u64, nat), LoadError>((f.timetick, 8)),
        parse_u64(s.skip(8)) == Ok::<(u64, nat), LoadError>((f.lastseqid, 8)),
        parse_u32(s.skip(16)) == Ok::<(u32, nat), LoadError>((f.billing, 4)),
        parse_counted(s.skip(20), actor_parser()) == Ok::<(Seq<ActorPlan>, nat), LoadError>(
            (f.actors, n1),
        ),
        parse_counted(s.skip(20 + n1 as int), world_record_parser(known + plan_ids(f.actors))) == Ok::<
            (Seq<WorldRecord>, nat),
            LoadError,
        >((f.worlds, n2)),
    ensures
        parse_universe(s, known) == Ok::<(UniverseFile, nat), LoadError>((f, 20 + n1 + n2)),
{
    reveal(parse_universe);
}

/// A universe whose file fits the format: it is consistent, stores at most
/// `u32::MAX` actors and worlds, each actor's record is well-formed, and each
/// world names at most `u32::MAX` actors.
pub open spec fn savable(u: Universe) -> bool {
    &&& u.wf_structure()
    &&& u.storage.actors@.dom().len() <= u32::MAX
    &&& u.storage.worlds@.dom().len() <= u32::MAX
    &&& forall|i: usize|
        #[trigger] u.storage.actors@.contains_key(i) ==> actor_wf(actor_plan(u.storage.actors@[i]))
    &&& forall|w: usize|
        #[trigger] u.storage.worlds@.contains_key(w) ==> u.storage.worlds@[w].actors@.len()
            <= u32::MAX
}

proof fn lemma_file_wf(u: Universe, known: Set<u64>)
    requires
        savable(u),
    ensures
        file_wf(universe_file(u), known),
{
    let f = universe_file(u);
    let actors = u.storage.actors@;
    let aslots = u.storage.actors.slots();
    let wslots = u.storage.worlds.slots();
    u.storage.actors.lemma_slots_bounded();
    u.storage.worlds.lemma_slots_bounded();
    lemma_occupied_len(aslots);
    lemma_occupied_len(wslots);
    assert forall|i: int| 0 <= i < f.actors.len() implies actor_wf(#[trigger] f.actors[i]) by {
        lemma_occupied_from(aslots, i);
        let j = choose|j: int| 0 <= j < aslots.len() && aslots[j] == Some(occupied(aslots)[i]);
        assert(actors.contains_key(j as usize));
    }
    assert forall|k: int| 0 <= k < f.worlds.len() implies (#[trigger] f.worlds[k]).actor_ids.len()
        <= u32::MAX && forall|m: int|
        0 <= m < f.worlds[k].actor_ids.len() ==> (known + plan_ids(f.actors)).contains(
            #[trigger] f.worlds[k].actor_ids[m],
        ) by {
        lemma_occupied_from(wslots, k);
        let j = choose|j: int| 0 <= j < wslots.len() && wslots[j] == Some(occupied(wslots)[k]);
        let w = occupied(wslots)[k];
        assert(u.storage.worlds@.contains_key(j as usize));
        assert(all_present(actors, w.actors@));
        let ids = f.worlds[k].actor_ids;
        assert forall|m: int| 0 <= m < ids.len() implies (known + plan_ids(f.actors)).contains(
            #[trigger] ids[m],
        ) by {
            let idx = w.actors@[m];
            assert(actors.contains_key(idx.0));
            lemma_occupied_has(aslots, idx.0 as int);
            let q = choose|q: int|
                0 <= q < occupied(aslots).len() && occupied(aslots)[q] == aslots[idx.0 as int]->0;
            assert(f.actors[q].id == ids[m]);
        }
    }
}

/// What `save` writes, `load` reads back: the bytes that `save` writes for a
/// universe whose file fits the format parse, version header included, as
/// that universe's file, and the reading stops where those bytes end.
pub proof fn lemma_save_load(u: Universe, known: Set<u64>, rest: Seq<u8>)
    requires
        savable(u),
    ensures
        parse_versioned(
            u16_le(UNIVERSE_VERSION) + universe_bytes(universe_file(u)) + rest,
            known,
        ) == Ok::<(UniverseFile, nat), LoadError>(
            (universe_file(u), 2 + universe_bytes(universe_file(u)).len()),
        ),
{
    let f = universe_file(u);
    let body = universe_bytes(f) + rest;
    lemma_file_wf(u, known);
    lemma_universe_roundtrip(f, known, rest);
    lemma_u16_roundtrip(UNIVERSE_VERSION, body);
    let s = u16_le(UNIVERSE_VERSION) + universe_bytes(f) + rest;
    assert(s =~= u16_le(UNIVERSE_VERSION) + body);
    assert(s.skip(2) =~= body);
}

/// What `load` reads into a fresh universe, `save` writes back: once a
/// universe file has been read into a consistent universe whose stores have
/// no slots yet, the file that universe writes is the file that was read.
pub proof fn lemma_load_save(before: Universe, after: Universe, f: UniverseFile)
    requires
        before.wf_structure(),
        before.storage.actors.slots().len() == 0,
        before.storage.worlds.slots().len() == 0,
        universe_loaded(before, after, f),
    ensures
        universe_file(after) == f,
{
    let a0 = before.storage.actors.slots();
    let w0 = before.storage.worlds.slots();
    before.storage.actors.lemma_free_within();
    before.storage.worlds.lemma_free_within();
    assert(occupied(a0).map_values(actor_planner()) =~= Seq::<ActorPlan>::empty());
    assert(occupied(w0).map_values(world_recorder(after.storage.actors@)) =~= Seq::<
        WorldRecord,
    >::empty());
    assert(Seq::<ActorPlan>::empty() + f.actors =~= f.actors);
    assert(Seq::<WorldRecord>::empty() + f.worlds =~= f.worlds);
}

/// A record type that can be read from a universe file.
pub trait Load1: Sized {
    /// The content of a record.
    type Plan;

    /// The content of a value.
    spec fn load_plan(&self) -> Self::Plan;

    /// Reads a record from the front of `s`.
    spec fn parse_1(s: Seq<u8>) -> Parsed<Self::Plan>;

    /// How far reading a record from the front of `s` gets before it fails.
    spec fn stop_1(s: Seq<u8>) -> nat;

    /// Reads a record.
    fn load_1(source: &mut Reader) -> (r: Result<Self, LoadError>)
        ensures
            read_into(
                *old(source),
                *final(source),
                r,
                Self::parse_1(old(source).rest()),
                |x: Self| x.load_plan(),
            ),
            r is Err ==> final(source).pos() == old(source).pos() + Self::stop_1(old(source).rest()),
    ;
}

/// A record type that can be written to a universe file.
pub trait Save1 {
    /// The content of a record.
    type Plan;

    /// The content of a value.
    spec fn save_plan(&self) -> Self::Plan;

    /// The bytes of a record.
    spec fn bytes_1(p: Self::Plan) -> Seq<u8>;

    /// Writes the record of the value.
    fn save_1(&self, target: &mut Writer)
        ensures
            final(target)@ == old(target)@ + Self::bytes_1(self.save_plan()),
    ;
}

impl Load1 for Actor {
    type Plan = ActorPlan;

    open spec fn load_plan(&self) -> ActorPlan {
        actor_plan(*self)
    }

    open spec fn parse_1(s: Seq<u8>) -> Parsed<ActorPlan> {
        parse_actor(s)
    }

    open spec fn stop_1(s: Seq<u8>) -> nat {
        actor_stop(s)
    }

    fn load_1(source: &mut Reader) -> (r: Result<Actor, LoadError>) {
        Actor::load_1(source)
    }
}

impl Save1 for Actor {
    type Plan = ActorPlan;

    open spec fn save_plan(&self) -> ActorPlan {
        actor_plan(*self)
    }

    open spec fn bytes_1(p: ActorPlan) -> Seq<u8> {
        actor_bytes(p)
    }

    fn save_1(&self, target: &mut Writer) {
        Actor::save_1(self, target)
    }
}

pub open spec fn loader<T: Load1>() -> spec_fn(Seq<u8>) -> Parsed<T::Plan> {
    |s: Seq<u8>| T::parse_1(s)
}

pub open spec fn stopper<T: Load1>() -> spec_fn(Seq<u8>) -> nat {
    |s: Seq<u8>| T::stop_1(s)
}

pub open spec fn saver<T: Save1>() -> spec_fn(T::Plan) -> Seq<u8> {
    |p: T::Plan| T::bytes_1(p)
}

pub open spec fn load_planner<T: Load1>() -> spec_fn(T) -> T::Plan {
    |x: T| x.load_plan()
}

pub open spec fn save_planner<T: Save1>() -> spec_fn(T) -> T::Plan {
    |x: T| x.save_plan()
}

/// What `save_vector_1` writes, `load_vector_1` reads back: for a record type
/// whose records read back as written, the count and records written for
/// the plans `items` parse as `items`, in order, and the reading stops where
/// they end.
pub proof fn lemma_vector_roundtrip<T: Load1 + Save1<Plan = <T as Load1>::Plan>>(
    items: Seq<<T as Load1>::Plan>,
    rest: Seq<u8>,
)
    requires
        items.len() <= u32::MAX,
        forall|i: int, r: Seq<u8>|
            #![trigger T::parse_1(T::bytes_1(items[i]) + r)]
            0 <= i < items.len() ==> T::parse_1(T::bytes_1(items[i]) + r) == Ok::<
                (<T as Load1>::Plan, nat),
                LoadError,
            >((items[i], T::bytes_1(items[i]).len())),
    ensures
        parse_counted(counted_bytes(items, saver::<T>()) + rest, loader::<T>()) == Ok::<
            (Seq<<T as Load1>::Plan>, nat),
            LoadError,
        >((items, counted_bytes(items, saver::<T>()).len())),
{
    assert forall|i: int, r: Seq<u8>|
        #![trigger loader::<T>()(saver::<T>()(items[i]) + r)]
        0 <= i < items.len() implies loader::<T>()(saver::<T>()(items[i]) + r) == Ok::<
            (<T as Load1>::Plan, nat),
            LoadError,
        >((items[i], saver::<T>()(items[i]).len())) by {
        assert(T::parse_1(T::bytes_1(items[i]) + r) == Ok::<(<T as Load1>::Plan, nat), LoadError>(
            (items[i], T::bytes_1(items[i]).len()),
        ));
    }
    lemma_counted_roundtrip(items, rest, loader::<T>(), saver::<T>());
}

/// The version of the universe file that this library writes and the only
/// one it reads.
pub const UNIVERSE_VERSION: u16 = 1;

/// Reads a universe file with its version header, which must be this
/// library's version.
pub open spec fn parse_versioned(s: Seq<u8>, known: Set<u64>) -> Parsed<UniverseFile> {
    match parse_u16(s) {
        Err(e) => Err(e),
        Ok((version, _)) => if version == UNIVERSE_VERSION {
            match parse_universe(s.skip(2), known) {
                Ok((f, n)) => Ok((f, 2 + n)),
                Err(e) => Err(e),
            }
        } else {
            Err(LoadError::UnknownVersion)
        },
    }
}

impl Default for Universe {
    fn default() -> (r: Self)
        ensures
            r.wf(),
            r.timetick == 0,
            r.lastseqid == 0,
            r.commune.billing == 0,
            r.commune.actors@ == Seq::<SlabIndex>::empty(),
            r.realm.worlds@ == Seq::<SlabIndex>::empty(),
            r.storage.actors@ == Map::<usize, Actor>::empty(),
            r.storage.worlds@ == Map::<usize, World>::empty(),
            r.storage.actors.slots().len() == 0,
            r.storage.worlds.slots().len() == 0,
            r.storage.alookup@ == Map::<u64, SlabIndex>::empty(),
            r.dispatcher@ == Seq::<ActorLifecycle>::empty(),
    {
        Universe {
            timetick: 0,
            lastseqid: 0,
            storage: Storage::default(),
            commune: Container::default(),
            realm: Realm::default(),
            dispatcher: Dispatcher::new(),
        }
    }
}

/// What the application drew or computed for the unit of an actor's
/// control whose turn it is.
pub enum UnitInput {
    /// The credits a credit sensor measured, as the bits of a float.
    Sensed { bits: u32 },
    /// A birth signal's decision.
    Signal { birth: bool },
    /// The giveaway drawn for a birth credit.
    Giveaway { drawn: u32 },
    /// A seed that a child maker took, once the application varied its
    /// blueprint: it is ready to be born.
    Ready { seed: Seed },
    /// A spawner's turn.
    Spawn,
}

/// `b` is the actor `a` after the unit whose turn it is acted on `input`:
/// a sensor or a signal stores what it measured or decided, a birth credit
/// sets aside what the body can spare of the drawn giveaway, a ready seed
/// joins the seeds to be born, and a spawner asks the body for those
/// children.
pub open spec fn control_stepped(a: Actor, b: Actor, input: UnitInput) -> bool {
    let va = a.control.values;
    let vb = b.control.values;
    &&& b.body.id == a.body.id
    &&& b.body.home == a.body.home
    &&& b.control.units == a.control.units
    &&& match input {
        UnitInput::Sensed { bits } => {
            &&& b.body == a.body
            &&& vb.credits == bits
            &&& vb.values == va.values && vb.birth == va.birth
            &&& vb.birthcredits == va.birthcredits && vb.seeds == va.seeds
        },
        UnitInput::Signal { birth } => {
            &&& b.body == a.body
            &&& vb.birth == birth
            &&& vb.values == va.values && vb.credits == va.credits
            &&& vb.birthcredits == va.birthcredits && vb.seeds == va.seeds
        },
        UnitInput::Giveaway { drawn } => {
            let g = available(available(a.body.credits, a.body.reserve), drawn);
            &&& b.body.reserve == a.body.reserve + g
            &&& b.body.credits == a.body.credits
            &&& b.body.inside == a.body.inside
            &&& vb.values == va.values && vb.credits == va.credits && vb.birth == va.birth
            &&& vb.seeds == va.seeds
            &&& seeds_plan(vb.birthcredits@) == if g > 0 {
                seeds_plan(va.birthcredits@).push(fresh_seed(g))
            } else {
                seeds_plan(va.birthcredits@)
            }
        },
        UnitInput::Ready { seed } => {
            &&& b.body == a.body
            &&& vb.values == va.values && vb.credits == va.credits && vb.birth == va.birth
            &&& vb.birthcredits == va.birthcredits
            &&& vb.seeds@ == va.seeds@.push(seed)
        },
        UnitInput::Spawn => {
            let (c, reqs) = spawn_requests(a.body.credits, seeds_plan(va.seeds@));
            &&& b.body.reserve == a.body.reserve
            &&& b.body.credits == c
            &&& b.body.inside@.take(a.body.inside@.len() as int) == a.body.inside@
            &&& requests_made(b.body.inside@, a.body.inside@.len() as int, reqs)
            &&& vb.values == va.values && vb.credits == va.credits && vb.birth == va.birth
            &&& vb.birthcredits == va.birthcredits
            &&& vb.seeds@.len() == 0
        },
    }
}

/// A birth signal's step replaces the stored decision by the one handed in,
/// whatever was stored before; the body is left alone.
pub proof fn lemma_signal_decides(a: Actor, b: Actor, birth: bool)
    requires
        control_stepped(a, b, UnitInput::Signal { birth }),
    ensures
        b.control.values.birth == birth,
        b.body == a.body,
{
}

/// A spawner's step adds to the body's requests only children it can build:
/// each with the credits of one of the actor's ready seeds and a startup
/// that reads back, using all of it, as that seed's blueprint.
pub proof fn lemma_spawn_step(a: Actor, b: Actor)
    requires
        control_stepped(a, b, UnitInput::Spawn),
        forall|k: int|
            0 <= k < a.control.values.seeds@.len() ==> plan_wf(
                plan_of((#[trigger] a.control.values.seeds@[k]).blueprints),
            ),
    ensures
        b.body.inside@.take(a.body.inside@.len() as int) == a.body.inside@,
        forall|j: int|
            a.body.inside@.len() <= j < b.body.inside@.len() ==> (
            #[trigger] b.body.inside@[j] matches ActorInside::Make { credits: c, startup }
                && exists|k: int|
                0 <= k < a.control.values.seeds@.len() && c == a.control.values.seeds@[k].credits
                    && parse_plan(startup@) == Ok::<(Plan, nat), LoadError>(
                    (plan_of(a.control.values.seeds@[k].blueprints), startup@.len()),
                )),
{
    let seeds = seeds_plan(a.control.values.seeds@);
    assert forall|k: int| 0 <= k < seeds.len() implies plan_wf(#[trigger] seeds[k].plan) by {
        assert(plan_wf(plan_of(a.control.values.seeds@[k].blueprints)));
    }
    lemma_spawner_children(
        b.body.inside@,
        a.body.inside@.len() as int,
        a.body.credits,
        seeds,
    );
}

impl Universe {
    /// The universe is consistent: its stores are, the commune and every
    /// world name stored actors, the commune names each at most once, every
    /// stored world is in the realm and the realm names stored worlds only,
    /// the lookup finds stored actors by their ids, and finds each actor of
    /// the commune.
    pub open spec fn wf(&self) -> bool {
        self.wf_structure() && self.commune_found()
    }

    /// The lookup finds each actor of the commune by its id; this fails when
    /// two actors of the commune share an id.
    pub open spec fn commune_found(&self) -> bool {
        let actors = self.storage.actors@;
        let lookup = self.storage.alookup@;
        forall|k: int|
            0 <= k < self.commune.actors@.len() ==> lookup.contains_key(
                actors[(#[trigger] self.commune.actors@[k]).0].body.id,
            ) && lookup[actors[self.commune.actors@[k].0].body.id] == self.commune.actors@[k]
    }

    /// Everything of `wf` but `commune_found`.
    pub open spec fn wf_structure(&self) -> bool {
        let actors = self.storage.actors@;
        let worlds = self.storage.worlds@;
        let lookup = self.storage.alookup@;
        &&& self.storage.actors.wf()
        &&& self.storage.worlds.wf()
        &&& self.commune.actors@.no_duplicates()
        &&& all_present(actors, self.commune.actors@)
        &&& forall|k: int|
            0 <= k < self.realm.worlds@.len() ==> worlds.contains_key(
                (#[trigger] self.realm.worlds@[k]).0,
            )
        &&& forall|w: usize|
            #[trigger] worlds.contains_key(w) ==> self.realm.worlds@.contains(SlabIndex(w))
                && all_present(actors, worlds[w].actors@)
        &&& forall|id: u64|
            #[trigger] lookup.contains_key(id) ==> actors.contains_key(lookup[id].0)
                && actors[lookup[id].0].body.id == id
    }

    /// Takes the actor with the given id out of the universe: out of the
    /// commune, out of every world, out of the lookup and out of the store.
    pub fn drop_actor(&mut self, id: u64)
        requires
            old(self).wf(),
            old(self).storage.alookup@.contains_key(id),
        ensures
            final(self).wf(),
            ({
                let i = old(self).storage.alookup@[id];
                &&& final(self).storage.actors@ == old(self).storage.actors@.remove(i.0)
                &&& final(self).storage.actors.free() == old(self).storage.actors.free().push(i)
                &&& final(self).storage.alookup@ == old(self).storage.alookup@.remove(id)
                &&& final(self).commune.actors@ == without(old(self).commune.actors@, i)
                &&& final(self).storage.worlds@.dom() == old(self).storage.worlds@.dom()
                &&& forall|w: usize|
                    #![trigger final(self).storage.worlds@[w]]
                    old(self).storage.worlds@.contains_key(w) ==> {
                        &&& final(self).storage.worlds@[w].id == old(self).storage.worlds@[w].id
                        &&& final(self).storage.worlds@[w].production == old(
                            self,
                        ).storage.worlds@[w].production
                        &&& final(self).storage.worlds@[w].actors@ == without(
                            old(self).storage.worlds@[w].actors@,
                            i,
                        )
                    }
            }),
            final(self).timetick == old(self).timetick,
            final(self).lastseqid == old(self).lastseqid,
            final(self).commune.billing == old(self).commune.billing,
            final(self).realm.worlds@ == old(self).realm.worlds@,
            final(self).dispatcher@ == old(self).dispatcher@,
    {
        let iactor = self.lookup_actor(id);
        let ghost actors0 = self.storage.actors@;
        let ghost lookup0 = self.storage.alookup@;
        let ghost worlds0 = self.storage.worlds@;
        let ghost commune0 = self.commune.actors@;
        self.commune.drop_actor(iactor);
        self.realm.drop_actor(&mut self.storage.worlds, iactor);
        self.storage.alookup.remove(&id);
        self.storage.actors.remove(iactor);
        proof {
            let q = other_than(iactor);
            lemma_filter_no_dup(commune0, q);
            lemma_filter_elems(commune0, q);
            assert forall|w: usize| #[trigger]
                worlds0.contains_key(w) implies self.realm.worlds@.contains(SlabIndex(w)) by {}
            assert forall|w: usize|
                #![trigger self.storage.worlds@[w]]
                worlds0.contains_key(w) implies self.storage.worlds@[w].actors@ == without(
                worlds0[w].actors@,
                iactor,
            ) by {
                assert(self.realm.worlds@.contains(SlabIndex(w)));
            }
            assert forall|w: usize| #[trigger]
                self.storage.worlds@.contains_key(w) implies all_present(
                self.storage.actors@,
                self.storage.worlds@[w].actors@,
            ) by {
                let wa = worlds0[w].actors@;
                lemma_filter_elems(wa, q);
                assert forall|k: int|
                    0 <= k < self.storage.worlds@[w].actors@.len() implies self.storage.actors@.contains_key(
                    (#[trigger] self.storage.worlds@[w].actors@[k]).0,
                ) by {
                    let y = wa.filter(q)[k];
                    assert(wa.contains(y));
                    let j = choose|j: int| 0 <= j < wa.len() && wa[j] == y;
                    assert(actors0.contains_key(wa[j].0));
                }
            }
            assert forall|k: int|
                0 <= k < self.commune.actors@.len() implies self.storage.actors@.contains_key(
                (#[trigger] self.commune.actors@[k]).0,
            ) by {
                let y = commune0.filter(q)[k];
                assert(commune0.contains(y));
                let j = choose|j: int| 0 <= j < commune0.len() && commune0[j] == y;
                assert(actors0.contains_key(commune0[j].0));
            }
            assert forall|id2: u64| #[trigger]
                self.storage.alookup@.contains_key(id2) implies self.storage.actors@.contains_key(
                self.storage.alookup@[id2].0,
            ) && self.storage.actors@[self.storage.alookup@[id2].0].body.id == id2 by {
                assert(lookup0.contains_key(id2));
                assert(lookup0[id2] != iactor);
            }
            assert forall|k: int|
                0 <= k < self.commune.actors@.len() implies self.storage.alookup@.contains_key(
                self.storage.actors@[(#[trigger] self.commune.actors@[k]).0].body.id,
            ) && self.storage.alookup@[self.storage.actors@[self.commune.actors@[k].0].body.id]
                == self.commune.actors@[k] by {
                let y = commune0.filter(q)[k];
                assert(commune0.contains(y));
                let j = choose|j: int| 0 <= j < commune0.len() && commune0[j] == y;
                assert(lookup0[actors0[commune0[j].0].body.id] == commune0[j]);
                assert(y != iactor);
            }
        }
    }

    /// Starts a tick: advances the clock, bills each actor of the commune
    /// and hands its pending requests to the dispatcher. Each actor's control
    /// acts next (the application's part), and `settle` ends the tick.
    pub fn tick_commune(&mut self)
        requires
            old(self).wf(),
            old(self).timetick < u64::MAX,
        ensures
            final(self).wf(),
            final(self).timetick == old(self).timetick + 1,
            final(self).lastseqid == old(self).lastseqid,
            final(self).commune == old(self).commune,
            final(self).realm == old(self).realm,
            final(self).storage.worlds == old(self).storage.worlds,
            final(self).storage.alookup == old(self).storage.alookup,
            ({
                let (c, d, out) = commune_run(
                    credits_of(old(self).storage.actors@),
                    Set::empty(),
                    old(self).commune.actors@,
                    old(self).commune.billing,
                    old(self).storage.actors@,
                );
                &&& billed(old(self).storage.actors, final(self).storage.actors, c, d)
                &&& final(self).dispatcher@ == old(self).dispatcher@ + out
            }),
            old(self).dispatcher@.len() == 0 ==> deaths_distinct(final(self).dispatcher@)
                && deaths_within(
                final(self).dispatcher@,
                id_set(old(self).storage.actors@, old(self).commune.actors@),
            ),
    {
        self.timetick = self.timetick + 1;
        self.commune.tick(&mut self.storage.actors, &mut self.dispatcher);
        proof {
            let actors0 = old(self).storage.actors@;
            let actors = self.storage.actors@;
            let lookup = self.storage.alookup@;
            lemma_commune_deaths(
                credits_of(actors0),
                Set::empty(),
                self.commune.actors@,
                self.commune.billing,
                actors0,
                lookup,
            );
            if old(self).dispatcher@.len() == 0 {
                let (c, d, out) = commune_run(
                    credits_of(actors0),
                    Set::empty(),
                    self.commune.actors@,
                    self.commune.billing,
                    actors0,
                );
                assert(self.dispatcher@ =~= out);
            }
            assert forall|w: usize| #[trigger]
                self.storage.worlds@.contains_key(w) implies self.realm.worlds@.contains(SlabIndex(w))
                && all_present(actors, self.storage.worlds@[w].actors@) by {
                assert(all_present(actors0, self.storage.worlds@[w].actors@));
            }
            assert forall|id: u64| #[trigger]
                lookup.contains_key(id) implies actors.contains_key(lookup[id].0)
                && actors[lookup[id].0].body.id == id by {
                assert(actors0.contains_key(lookup[id].0));
            }
            assert forall|k: int|
                0 <= k < self.commune.actors@.len() implies lookup.contains_key(
                actors[(#[trigger] self.commune.actors@[k]).0].body.id,
            ) && lookup[actors[self.commune.actors@[k].0].body.id] == self.commune.actors@[k] by {
                assert(actors0.contains_key(self.commune.actors@[k].0));
            }
        }
    }

    /// Ends a tick: each world of the realm feeds its actors, then every
    /// actor whose death was announced is taken out of the universe, and the
    /// dispatcher is emptied.
    pub fn settle(&mut self)
        requires
            old(self).wf(),
            deaths_distinct(old(self).dispatcher@),
            deaths_within(old(self).dispatcher@, old(self).storage.alookup@.dom()),
        ensures
            final(self).wf(),
            final(self).dispatcher@.len() == 0,
            final(self).timetick == old(self).timetick,
            final(self).lastseqid == old(self).lastseqid,
            final(self).commune.billing == old(self).commune.billing,
            final(self).realm.worlds@ == old(self).realm.worlds@,
            ({
                let fed = realm_feed(
                    credits_of(old(self).storage.actors@),
                    old(self).realm.worlds@,
                    old(self).storage.worlds@,
                );
                let deaths = death_ids(old(self).dispatcher@);
                let gone = slots_of(old(self).storage.alookup@, deaths);
                &&& final(self).storage.alookup@ == old(self).storage.alookup@.remove_keys(deaths)
                &&& final(self).storage.actors@.dom() == old(self).storage.actors@.dom().difference(
                    gone,
                )
                &&& forall|i: usize|
                    #![trigger final(self).storage.actors@[i]]
                    final(self).storage.actors@.contains_key(i) ==> same_but_credits(
                        final(self).storage.actors@[i],
                        old(self).storage.actors@[i],
                    ) && final(self).storage.actors@[i].body.credits == fed[i]
                &&& final(self).commune.actors@ == without_all(old(self).commune.actors@, gone)
                &&& final(self).storage.worlds@.dom() == old(self).storage.worlds@.dom()
                &&& forall|w: usize|
                    #![trigger final(self).storage.worlds@[w]]
                    old(self).storage.worlds@.contains_key(w) ==> {
                        &&& final(self).storage.worlds@[w].id == old(self).storage.worlds@[w].id
                        &&& final(self).storage.worlds@[w].production == old(
                            self,
                        ).storage.worlds@[w].production
                        &&& final(self).storage.worlds@[w].actors@ == without_all(
                            old(self).storage.worlds@[w].actors@,
                            gone,
                        )
                    }
            }),
    {
        proof {
            assert forall|k: int|
                0 <= k < self.realm.worlds@.len() implies self.storage.worlds@.contains_key(
                (#[trigger] self.realm.worlds@[k]).0,
            ) && all_present(self.storage.actors@, self.storage.worlds@[self.realm.worlds@[k].0].actors@) by {
                assert(self.storage.worlds@.contains_key(self.realm.worlds@[k].0));
            }
        }
        self.realm.tick(&mut self.storage.worlds, &mut self.storage.actors);
        let ghost msgs = self.dispatcher@;
        let ghost lookup0 = self.storage.alookup@;
        let ghost actors1 = self.storage.actors@;
        let ghost worlds0 = self.storage.worlds@;
        let ghost commune0 = self.commune.actors@;
        let ghost fed = realm_feed(credits_of(old(self).storage.actors@), old(self).realm.worlds@, old(self).storage.worlds@);
        proof {
            let actors0 = old(self).storage.actors@;
            assert forall|w: usize| #[trigger]
                self.storage.worlds@.contains_key(w) implies self.realm.worlds@.contains(SlabIndex(w))
                && all_present(actors1, self.storage.worlds@[w].actors@) by {
                assert(all_present(actors0, self.storage.worlds@[w].actors@));
            }
            assert forall|id: u64| #[trigger]
                lookup0.contains_key(id) implies actors1.contains_key(lookup0[id].0)
                && actors1[lookup0[id].0].body.id == id by {
                assert(actors0.contains_key(lookup0[id].0));
            }
            assert forall|k: int|
                0 <= k < commune0.len() implies lookup0.contains_key(
                actors1[(#[trigger] commune0[k]).0].body.id,
            ) && lookup0[actors1[commune0[k].0].body.id] == commune0[k] by {
                assert(actors0.contains_key(commune0[k].0));
            }
            assert(msgs.take(0) =~= Seq::<ActorLifecycle>::empty());
            assert(death_ids(msgs.take(0)) =~= Set::<u64>::empty());
            assert(slots_of(lookup0, Set::<u64>::empty()) =~= Set::<usize>::empty());
            assert(lookup0.remove_keys(Set::<u64>::empty()) =~= lookup0);
            assert(actors1.remove_keys(Set::<usize>::empty()) =~= actors1);
            reveal(Seq::filter);
            assert(without_all(commune0, Set::<usize>::empty()) =~= commune0) by {
                lemma_filter_all(commune0, outside(Set::<usize>::empty()));
            }
            assert forall|w: usize| #![trigger worlds0[w]] worlds0.contains_key(w) implies without_all(
                worlds0[w].actors@,
                Set::<usize>::empty(),
            ) == worlds0[w].actors@ by {
                lemma_filter_all(worlds0[w].actors@, outside(Set::<usize>::empty()));
            }
            assert(msgs.skip(0) =~= msgs);
        }
        let ghost mut k: int = 0;
        while self.dispatcher.len() > 0
            invariant
                0 <= k <= msgs.len(),
                self.dispatcher@ == msgs.skip(k),
                self.wf(),
                deaths_distinct(msgs),
                deaths_within(msgs, lookup0.dom()),
                self.timetick == old(self).timetick,
                self.lastseqid == old(self).lastseqid,
                self.commune.billing == old(self).commune.billing,
                self.realm.worlds@ == old(self).realm.worlds@,
                self.storage.alookup@ == lookup0.remove_keys(death_ids(msgs.take(k))),
                self.storage.actors@ == actors1.remove_keys(
                    slots_of(lookup0, death_ids(msgs.take(k))),
                ),
                self.commune.actors@ == without_all(
                    commune0,
                    slots_of(lookup0, death_ids(msgs.take(k))),
                ),
                self.storage.worlds@.dom() == worlds0.dom(),
                forall|w: usize|
                    #![trigger self.storage.worlds@[w]]
                    worlds0.contains_key(w) ==> {
                        &&& self.storage.worlds@[w].id == worlds0[w].id
                        &&& self.storage.worlds@[w].production == worlds0[w].production
                        &&& self.storage.worlds@[w].actors@ == without_all(
                            worlds0[w].actors@,
                            slots_of(lookup0, death_ids(msgs.take(k))),
                        )
                    },
            decreases msgs.len() - k,
        {
            let ghost taken = death_ids(msgs.take(k));
            let ghost gone = slots_of(lookup0, taken);
            let message = self.dispatcher.get();
            proof {
                assert(message == msgs[k]);
                assert(msgs.skip(k).drop_first() =~= msgs.skip(k + 1));
                assert(msgs.take(k + 1) =~= msgs.take(k).push(msgs[k]));
            }
            match message {
                ActorLifecycle::Death { id } => {
                    proof {
                        assert(msgs[k] is Death);
                        assert(lookup0.contains_key(id));
                        if taken.contains(id) {
                            let j = choose|j: int| 0 <= j < msgs.take(k).len() && #[trigger] msgs.take(k)[j] == (ActorLifecycle::Death { id });
                            assert(msgs[j] == msgs.take(k)[j]);
                            assert(msgs[j] is Death);
                        }
                    }
                    let ghost i = lookup0[id];
                    self.drop_actor(id);
                    proof {
                        let taken2 = death_ids(msgs.take(k + 1));
                        assert(taken2 =~= taken.insert(id)) by {
                            assert forall|x: u64| taken2.contains(x) implies taken.insert(x).contains(x) || x == id by {}
                            assert forall|x: u64| #[trigger] taken.insert(id).contains(x) implies taken2.contains(x) by {
                                if x == id {
                                    assert(msgs.take(k + 1)[k] == (ActorLifecycle::Death { id }));
                                } else {
                                    let j = choose|j: int| 0 <= j < msgs.take(k).len() && #[trigger] msgs.take(k)[j] == (ActorLifecycle::Death { id: x });
                                    assert(msgs.take(k + 1)[j] == msgs.take(k)[j]);
                                }
                            }
                            assert forall|x: u64| #[trigger] taken2.contains(x) implies taken.insert(id).contains(x) by {
                                let j = choose|j: int| 0 <= j < msgs.take(k + 1).len() && #[trigger] msgs.take(k + 1)[j] == (ActorLifecycle::Death { id: x });
                                if j < k {
                                    assert(msgs.take(k)[j] == msgs.take(k + 1)[j]);
                                }
                            }
                        }
                        let gone2 = slots_of(lookup0, taken2);
                        assert(gone2 =~= gone.insert(i.0)) by {
                            assert forall|x: usize| #[trigger] gone2.contains(x) implies gone.insert(i.0).contains(x) by {
                                let y = choose|y: u64| #[trigger] taken2.contains(y) && lookup0[y].0 == x;
                                if y != id {
                                    assert(taken.contains(y));
                                }
                            }
                            assert forall|x: usize| #[trigger] gone.insert(i.0).contains(x) implies gone2.contains(x) by {
                                if x == i.0 {
                                    assert(taken2.contains(id));
                                } else {
                                    let y = choose|y: u64| #[trigger] taken.contains(y) && lookup0[y].0 == x;
                                    assert(taken2.contains(y));
                                }
                            }
                        }
                        assert(self.storage.alookup@ =~= lookup0.remove_keys(taken2));
                        assert(self.storage.actors@ =~= actors1.remove_keys(gone2));
                        lemma_without_more(commune0, gone, i);
                        assert forall|w: usize|
                            #![trigger self.storage.worlds@[w]]
                            worlds0.contains_key(w) implies self.storage.worlds@[w].actors@ == without_all(
                            worlds0[w].actors@,
                            gone2,
                        ) by {
                            lemma_without_more(worlds0[w].actors@, gone, i);
                        }
                    }
                },
                _ => {
                    proof {
                        assert(death_ids(msgs.take(k + 1)) =~= taken) by {
                            assert forall|x: u64| #[trigger] death_ids(msgs.take(k + 1)).contains(x) implies taken.contains(x) by {
                                let j = choose|j: int| 0 <= j < msgs.take(k + 1).len() && #[trigger] msgs.take(k + 1)[j] == (ActorLifecycle::Death { id: x });
                                if j < k {
                                    assert(msgs.take(k)[j] == msgs.take(k + 1)[j]);
                                } else {
                                    assert(!(msgs[k] is Death));
                                }
                            }
                            assert forall|x: u64| #[trigger] taken.contains(x) implies death_ids(msgs.take(k + 1)).contains(x) by {
                                let j = choose|j: int| 0 <= j < msgs.take(k).len() && #[trigger] msgs.take(k)[j] == (ActorLifecycle::Death { id: x });
                                assert(msgs.take(k + 1)[j] == msgs.take(k)[j]);
                            }
                        }
                    }
                },
            }
            proof {
                k = k + 1;
            }
        }
        proof {
            assert(msgs.take(msgs.len() as int) =~= msgs);
            let deaths = death_ids(msgs);
            let gone = slots_of(lookup0, deaths);
            assert(self.storage.actors@.dom() =~= old(self).storage.actors@.dom().difference(gone));
        }
    }

    /// Reads a count and that many actor records; stores each actor, adds it
    /// to the commune and enters it in the lookup.
    fn load_actors(&mut self, source: &mut Reader) -> (r: Result<(), LoadError>)
        requires
            old(self).wf_structure(),
        ensures
            final(self).wf_structure(),
            final(source).data() == old(source).data(),
            final(source).pos() <= final(source).data().len(),
            final(self).timetick == old(self).timetick,
            final(self).lastseqid == old(self).lastseqid,
            final(self).commune.billing == old(self).commune.billing,
            final(self).storage.worlds == old(self).storage.worlds,
            final(self).realm == old(self).realm,
            final(self).dispatcher == old(self).dispatcher,
            match parse_counted(old(source).rest(), actor_parser()) {
                Ok((acts, n)) => r is Ok && final(source).pos() == old(source).pos() + n && loaded(
                    *old(self),
                    *final(self),
                    acts,
                ) && appended_at_end(
                    old(self).storage.actors,
                    final(self).storage.actors,
                    actor_planner(),
                    acts,
                ),
                Err(e) => r == Err::<(), LoadError>(e),
            },
            loaded(*old(self), *final(self), counted_prefix(old(source).rest(), actor_parser())),
            r is Err ==> final(source).pos() == old(source).pos() + counted_stop(
                old(source).rest(),
                actor_parser(),
                actor_stopper(),
            ),
    {
        let ghost s0 = source.rest();
        proof {
            if let Ok((c, _)) = parse_u32(s0) {
                lemma_many_prefix_whole(s0.skip(4), c as nat, actor_parser());
            }
            lemma_loaded_none(*old(self), *old(self));
        }
        let count = source.count()?;
        assert(source.rest() =~= s0.skip(4));
        let ghost s1 = source.rest();
        let ghost p1 = source.pos();
        let ghost whole = counted_prefix(s0, actor_parser());
        let ghost mut acts: Seq<ActorPlan> = Seq::empty();
        assert(whole =~= acts + many_prefix(s1, count as nat, actor_parser()));
        let mut i: u32 = 0;
        proof {
            assert(self.commune.actors@.skip(old(self).commune.actors@.len() as int) =~= Seq::<SlabIndex>::empty());
            assert(old(self).commune.actors@ + Seq::<SlabIndex>::empty() =~= old(self).commune.actors@);
            assert(old(self).storage.actors@.dom() + fresh_set(Seq::<SlabIndex>::empty()) =~= old(self).storage.actors@.dom());
            assert(Seq::<ActorPlan>::empty() + Seq::<ActorPlan>::empty() =~= Seq::<ActorPlan>::empty());
        }
        while i < count
            invariant
                source.data() == old(source).data(),
                source.pos() <= source.data().len(),
                p1 <= source.pos(),
                s1 == source.data().skip(p1 as int),
                s1 == s0.skip(4),
                s0 == old(source).rest(),
                p1 == old(source).pos() + 4,
                parse_u32(s0) == Ok::<(u32, nat), LoadError>((count, 4)),
                i <= count,
                acts.len() == i,
                self.wf_structure(),
                self.timetick == old(self).timetick,
                self.lastseqid == old(self).lastseqid,
                self.commune.billing == old(self).commune.billing,
                self.storage.worlds == old(self).storage.worlds,
                self.realm == old(self).realm,
                self.dispatcher == old(self).dispatcher,
                loaded(*old(self), *self, acts),
                appended_at_end(old(self).storage.actors, self.storage.actors, actor_planner(), acts),
                whole == counted_prefix(s0, actor_parser()),
                parse_many(s1, count as nat, actor_parser()) matches Ok((xs, _)) ==> whole == xs,
                whole == acts + many_prefix(source.rest(), (count - i) as nat, actor_parser()),
                many_stop(s1, count as nat, actor_parser(), actor_stopper()) == (source.pos() - p1)
                    + many_stop(source.rest(), (count - i) as nat, actor_parser(), actor_stopper()),
                many_so_far(
                    parse_many(s1, count as nat, actor_parser()),
                    acts,
                    (source.pos() - p1) as nat,
                    parse_many(source.rest(), (count - i) as nat, actor_parser()),
                ),
            decreases count - i,
        {
            let ghost before = *source;
            let ghost prev = *self;
            proof {
                assert(acts + Seq::<ActorPlan>::empty() =~= acts);
            }
            let actor = match Actor::load_1(source) {
                Ok(a) => a,
                Err(e) => {
                    assert(many_stop(before.rest(), (count - i) as nat, actor_parser(), actor_stopper())
                        == actor_stop(before.rest()));
                    return Err(e);
                },
            };
            let aid = actor.get_id();
            let ghost plan = actor_plan(actor);
            let iactor = self.storage.actors.insert(actor);
            self.commune.insert(iactor);
            self.storage.alookup.insert(aid, iactor);
            proof {
                let k = (source.pos() - before.pos()) as nat;
                assert(before.rest().skip(k as int) =~= source.rest());
                lemma_many_step(
                    parse_many(s1, count as nat, actor_parser()),
                    acts,
                    (before.pos() - p1) as nat,
                    before.rest(),
                    (count - i) as nat,
                    actor_parser(),
                    plan,
                    k,
                );
                lemma_loaded_step(*old(self), prev, *self, acts, iactor, plan);
                lemma_appended_step(
                    old(self).storage.actors,
                    prev.storage.actors,
                    self.storage.actors,
                    actor_planner(),
                    acts,
                    actor,
                );
                lemma_prefix_step(whole, acts, before.rest(), (count - i) as nat, actor_parser(), plan, k);
                acts = acts.push(plan);
            }
            i = i + 1;
        }
        assert(acts + Seq::<ActorPlan>::empty() =~= acts);
        Ok(())
    }

    /// Reads a count and that many world records, each naming actors the
    /// lookup knows; stores each world, its actors found by id, and adds it
    /// to the realm.
    fn load_worlds(&mut self, source: &mut Reader) -> (r: Result<(), LoadError>)
        requires
            old(self).wf_structure(),
        ensures
            final(self).wf_structure(),
            final(source).data() == old(source).data(),
            final(source).pos() <= final(source).data().len(),
            final(self).timetick == old(self).timetick,
            final(self).lastseqid == old(self).lastseqid,
            final(self).commune == old(self).commune,
            final(self).storage.actors == old(self).storage.actors,
            final(self).storage.alookup == old(self).storage.alookup,
            final(self).dispatcher == old(self).dispatcher,
            match parse_counted(
                old(source).rest(),
                world_record_parser(old(self).storage.alookup@.dom()),
            ) {
                Ok((ws, n)) => r is Ok && final(source).pos() == old(source).pos() + n
                    && worlds_loaded(*old(self), *final(self), ws, old(self).storage.alookup@)
                    && appended_at_end(
                    old(self).storage.worlds,
                    final(self).storage.worlds,
                    world_recorder(old(self).storage.actors@),
                    ws,
                ),
                Err(e) => r == Err::<(), LoadError>(e),
            },
            r is Err ==> final(source).pos() == old(source).pos() + counted_stop(
                old(source).rest(),
                world_record_parser(old(self).storage.alookup@.dom()),
                world_stopper(old(self).storage.alookup@.dom()),
            ),
            worlds_loaded(
                *old(self),
                *final(self),
                counted_prefix(
                    old(source).rest(),
                    world_record_parser(old(self).storage.alookup@.dom()),
                ),
                old(self).storage.alookup@,
            ),
    {
        let ghost s0 = source.rest();
        let ghost known = self.storage.alookup@.dom();
        let ghost item = world_record_parser(known);
        proof {
            if let Ok((c, _)) = parse_u32(s0) {
                lemma_many_prefix_whole(s0.skip(4), c as nat, item);
            }
            lemma_worlds_loaded_none(*old(self), *old(self), old(self).storage.alookup@);
        }
        let count = source.count()?;
        assert(source.rest() =~= s0.skip(4));
        let ghost s1 = source.rest();
        let ghost p1 = source.pos();
        let ghost whole = counted_prefix(s0, item);
        let ghost mut recs: Seq<WorldRecord> = Seq::empty();
        assert(whole =~= recs + many_prefix(s1, count as nat, item));
        let mut i: u32 = 0;
        proof {
            assert(self.realm.worlds@.skip(old(self).realm.worlds@.len() as int) =~= Seq::<SlabIndex>::empty());
            assert(old(self).realm.worlds@ + Seq::<SlabIndex>::empty() =~= old(self).realm.worlds@);
            assert(old(self).storage.worlds@.dom() + fresh_set(Seq::<SlabIndex>::empty()) =~= old(self).storage.worlds@.dom());
            assert(Seq::<WorldRecord>::empty() + Seq::<WorldRecord>::empty() =~= Seq::<WorldRecord>::empty());
        }
        while i < count
            invariant
                source.data() == old(source).data(),
                source.pos() <= source.data().len(),
                p1 <= source.pos(),
                s1 == source.data().skip(p1 as int),
                s1 == s0.skip(4),
                s0 == old(source).rest(),
                p1 == old(source).pos() + 4,
                parse_u32(s0) == Ok::<(u32, nat), LoadError>((count, 4)),
                known == self.storage.alookup@.dom(),
                item == world_record_parser(known),
                i <= count,
                recs.len() == i,
                self.wf_structure(),
                self.timetick == old(self).timetick,
                self.lastseqid == old(self).lastseqid,
                self.commune == old(self).commune,
                self.storage.actors == old(self).storage.actors,
                self.storage.alookup == old(self).storage.alookup,
                self.dispatcher == old(self).dispatcher,
                worlds_loaded(*old(self), *self, recs, old(self).storage.alookup@),
                whole == counted_prefix(s0, item),
                parse_many(s1, count as nat, item) matches Ok((xs, _)) ==> whole == xs,
                whole == recs + many_prefix(source.rest(), (count - i) as nat, item),
                many_stop(s1, count as nat, item, world_stopper(known)) == (source.pos() - p1)
                    + many_stop(source.rest(), (count - i) as nat, item, world_stopper(known)),
                appended_at_end(
                    old(self).storage.worlds,
                    self.storage.worlds,
                    world_recorder(old(self).storage.actors@),
                    recs,
                ),
                many_so_far(
                    parse_many(s1, count as nat, item),
                    recs,
                    (source.pos() - p1) as nat,
                    parse_many(source.rest(), (count - i) as nat, item),
                ),
            decreases count - i,
        {
            let ghost before = *source;
            let ghost prev = *self;
            proof {
                lemma_world_via_record(before.rest(), self.storage.alookup@);
                assert(recs + Seq::<WorldRecord>::empty() =~= recs);
            }
            let world = match World::load_1(source, &self.storage.alookup) {
                Ok(w) => w,
                Err(e) => {
                    assert(many_stop(before.rest(), (count - i) as nat, item, world_stopper(known))
                        == world_stop(before.rest(), known));
                    return Err(e);
                },
            };
            let ghost rec = match parse_world_record(before.rest(), known) {
                Ok((r, _)) => r,
                Err(_) => WorldRecord { id: 0, production: 0, actor_ids: Seq::empty() },
            };
            let iworld = self.storage.worlds.insert(world);
            self.realm.insert(iworld);
            proof {
                let k = (source.pos() - before.pos()) as nat;
                assert(before.rest().skip(k as int) =~= source.rest());
                lemma_many_step(
                    parse_many(s1, count as nat, item),
                    recs,
                    (before.pos() - p1) as nat,
                    before.rest(),
                    (count - i) as nat,
                    item,
                    rec,
                    k,
                );
                lemma_worlds_loaded_step(*old(self), prev, *self, recs, iworld, rec);
                lemma_prefix_step(whole, recs, before.rest(), (count - i) as nat, item, rec, k);
                let wnew = self.storage.worlds@[iworld.0];
                lemma_record_ids_known(before.rest(), known);
                let actors = old(self).storage.actors@;
                assert(ids_of(actors, wnew.actors@) =~= rec.actor_ids) by {
                    assert forall|j: int| 0 <= j < rec.actor_ids.len() implies ids_of(
                        actors,
                        wnew.actors@,
                    )[j] == rec.actor_ids[j] by {
                        assert(known.contains(rec.actor_ids[j]));
                    }
                }
                assert(world_recorder(actors)(wnew) == rec);
                lemma_appended_step(
                    old(self).storage.worlds,
                    prev.storage.worlds,
                    self.storage.worlds,
                    world_recorder(actors),
                    recs,
                    wnew,
                );
                recs = recs.push(rec);
                assert forall|j: int| 0 <= j < wnew.actors@.len() implies self.storage.actors@.contains_key((#[trigger] wnew.actors@[j]).0) by {
                    assert(known.contains(rec.actor_ids[j]));
                }
                assert forall|w: usize| #[trigger] self.storage.worlds@.contains_key(w) implies self.realm.worlds@.contains(SlabIndex(w))
                    && all_present(self.storage.actors@, self.storage.worlds@[w].actors@) by {
                    if w == iworld.0 {
                        assert(self.realm.worlds@[self.realm.worlds@.len() - 1] == iworld);
                    } else {
                        assert(prev.storage.worlds@.contains_key(w));
                        assert(prev.realm.worlds@.contains(SlabIndex(w)));
                        let j = choose|j: int| 0 <= j < prev.realm.worlds@.len() && prev.realm.worlds@[j] == SlabIndex(w);
                        assert(self.realm.worlds@[j] == SlabIndex(w));
                    }
                }
                assert forall|j: int| 0 <= j < self.realm.worlds@.len() implies self.storage.worlds@.contains_key(
                    (#[trigger] self.realm.worlds@[j]).0) by {
                    if j < prev.realm.worlds@.len() {
                        assert(self.realm.worlds@[j] == prev.realm.worlds@[j]);
                    }
                }
            }
            i = i + 1;
        }
        assert(recs + Seq::<WorldRecord>::empty() =~= recs);
        Ok(())
    }

    /// Reads a universe file into this universe: the clock, the last
    /// sequence id, the commune's billing, then the actors, each stored, added
    /// to the commune and entered in the lookup, then the worlds, each stored
    /// with its actors found by id and added to the realm. On an error, what
    /// was read before it stays.
    pub fn load_1(&mut self, source: &mut Reader) -> (r: Result<(), LoadError>)
        requires
            old(self).wf_structure(),
        ensures
            final(self).wf_structure(),
            final(source).data() == old(source).data(),
            final(source).pos() <= final(source).data().len(),
            match parse_universe(old(source).rest(), old(self).storage.alookup@.dom()) {
                Ok((f, n)) => r is Ok && final(source).pos() == old(source).pos() + n
                    && universe_loaded(*old(self), *final(self), f),
                Err(e) => r == Err::<(), LoadError>(e) && universe_partial(
                    *old(self),
                    *final(self),
                    old(source).rest(),
                    old(self).storage.alookup@.dom(),
                ),
            },
            r is Err ==> final(source).pos() == old(source).pos() + universe_stop(
                old(source).rest(),
                old(self).storage.alookup@.dom(),
            ),
    {
        proof {
            reveal(parse_universe);
        }
        let ghost s0 = source.rest();
        let ghost known = self.storage.alookup@.dom();
        proof {
            lemma_loaded_none(*old(self), *self);
            lemma_worlds_loaded_none(*old(self), *self, self.storage.alookup@);
        }
        self.timetick = source.u64()?;
        assert(source.rest() =~= s0.skip(8));
        proof {
            lemma_loaded_none(*old(self), *self);
            lemma_worlds_loaded_none(*old(self), *self, self.storage.alookup@);
        }
        self.lastseqid = source.u64()?;
        assert(source.rest() =~= s0.skip(16));
        proof {
            lemma_loaded_none(*old(self), *self);
            lemma_worlds_loaded_none(*old(self), *self, self.storage.alookup@);
        }
        self.commune.load_1(source)?;
        assert(source.rest() =~= s0.skip(20));
        let ghost start = *self;
        let ghost p1 = source.pos();
        proof {
            lemma_worlds_loaded_none(*old(self), *self, self.storage.alookup@);
        }
        self.load_actors(source)?;
        let ghost mid = *self;
        proof {
            assert(source.rest() =~= s0.skip(20 + (source.pos() - p1)));
            match parse_counted(s0.skip(20), actor_parser()) {
                Ok((acts, n)) => {
                    let fresh = mid.commune.actors@.skip(start.commune.actors@.len() as int);
                    lemma_lookup_after_dom(start.storage.alookup@, acts, fresh);
                },
                Err(_) => {},
            }
        }
        self.load_worlds(source)?;
        Ok(())
    }

    /// Writes the universe file: the clock, the last sequence id, the
    /// commune's billing, every stored actor and every stored world, in slot
    /// order.
    pub fn save_1(&self, target: &mut Writer)
        requires
            self.wf_structure(),
        ensures
            final(target)@ == old(target)@ + universe_bytes(universe_file(*self)),
    {
        target.u64(self.timetick);
        target.u64(self.lastseqid);
        self.commune.save_1(target);
        let ghost head = target@;
        self.save_actors(target);
        let ghost mid = target@;
        self.save_worlds(target);
        proof {
            let f = universe_file(*self);
            let ab = counted_bytes(f.actors, actor_writer());
            let wb = counted_bytes(f.worlds, world_record_writer());
            assert(target@ =~= old(target)@ + universe_bytes(f));
        }
    }

    fn save_actors(&self, target: &mut Writer)
        requires
            self.storage.actors.wf(),
        ensures
            final(target)@ == old(target)@ + counted_bytes(saved_actors(*self), actor_writer()),
    {
        let ghost slots = self.storage.actors.slots();
        target.count(self.storage.actors.len());
        let ghost head = target@;
        let mut it = self.storage.actors.all();
        proof {
            assert(slots.take(0) =~= Seq::<Option<Actor>>::empty());
            assert(occupied(slots.take(0)).map_values(actor_planner()) =~= Seq::<ActorPlan>::empty());
        }
        loop
            invariant_except_break
                it.slots() == slots,
                it.pos() <= slots.len(),
                target@ == head + many_bytes(
                    occupied(slots.take(it.pos() as int)).map_values(actor_planner()),
                    actor_writer(),
                ),
            ensures
                target@ == head + many_bytes(occupied(slots).map_values(actor_planner()), actor_writer()),
            decreases slots.len() - it.pos(),
        {
            let ghost p0 = it.pos();
            let ghost before = it;
            let next = it.next();
            assert(before.slots() == slots);
            match next {
                Some(actor) => {
                    assert(slots[it.pos() - 1] == Some(*actor));
                    actor.save_1(target);
                    proof {
                        lemma_occupied_bytes_step(
                            slots,
                            p0 as int,
                            it.pos() as int,
                            *actor,
                            actor_planner(),
                            actor_writer(),
                        );
                    }
                },
                None => {
                    proof {
                        lemma_occupied_gap(slots, p0 as int, slots.len() as int);
                        assert(slots.take(slots.len() as int) =~= slots);
                    }
                    break;
                },
            }
        }
        proof {
            assert(occupied(slots).map_values(actor_planner()) =~= saved_actors(*self));
            assert(target@ =~= old(target)@ + counted_bytes(saved_actors(*self), actor_writer()));
        }
    }

    fn save_worlds(&self, target: &mut Writer)
        requires
            self.wf_structure(),
        ensures
            final(target)@ == old(target)@ + counted_bytes(saved_worlds(*self), world_record_writer()),
    {
        let ghost slots = self.storage.worlds.slots();
        target.count(self.storage.worlds.len());
        let ghost head = target@;
        let mut it = self.storage.worlds.all();
        proof {
            assert(slots.take(0) =~= Seq::<Option<World>>::empty());
            assert(occupied(slots.take(0)).map_values(world_recorder(self.storage.actors@)) =~= Seq::<WorldRecord>::empty());
        }
        loop
            invariant_except_break
                it.slots() == slots,
                slots == self.storage.worlds.slots(),
                slots.len() <= usize::MAX,
                self.wf_structure(),
                it.pos() <= slots.len(),
                target@ == head + many_bytes(
                    occupied(slots.take(it.pos() as int)).map_values(world_recorder(self.storage.actors@)),
                    world_record_writer(),
                ),
            ensures
                target@ == head + many_bytes(occupied(slots).map_values(world_recorder(self.storage.actors@)), world_record_writer()),
            decreases slots.len() - it.pos(),
        {
            let ghost p0 = it.pos();
            let ghost before = it;
            let next = it.next();
            assert(before.slots() == slots);
            match next {
                Some(world) => {
                    proof {
                        assert(slots[it.pos() - 1] == Some(*world));
                        let i = (it.pos() - 1) as usize;
                        assert(self.storage.worlds@.contains_key(i));
                        assert(self.storage.worlds@[i] == *world);
                    }
                    world.save_1(target, &self.storage.actors);
                    proof {
                        lemma_occupied_bytes_step(
                            slots,
                            p0 as int,
                            it.pos() as int,
                            *world,
                            world_recorder(self.storage.actors@),
                            world_record_writer(),
                        );
                    }
                },
                None => {
                    proof {
                        lemma_occupied_gap(slots, p0 as int, slots.len() as int);
                        assert(slots.take(slots.len() as int) =~= slots);
                    }
                    break;
                },
            }
        }
        proof {
            assert(occupied(slots).map_values(world_recorder(self.storage.actors@)) =~= saved_worlds(*self));
            assert(target@ =~= old(target)@ + counted_bytes(saved_worlds(*self), world_record_writer()));
        }
    }

    /// Reads a universe file with its version header: version 1 is read by
    /// `load_1`, any other is refused.
    pub fn load(&mut self, source: &mut Reader) -> (r: Result<(), LoadError>)
        requires
            old(self).wf_structure(),
        ensures
            final(self).wf_structure(),
            match parse_versioned(old(source).rest(), old(self).storage.alookup@.dom()) {
                Ok((f, n)) => r is Ok && final(source).pos() == old(source).pos() + n
                    && universe_loaded(*old(self), *final(self), f),
                Err(e) => r == Err::<(), LoadError>(e),
            },
            match parse_u16(old(source).rest()) {
                Ok((version, _)) => if version == UNIVERSE_VERSION {
                    r is Err ==> universe_partial(
                        *old(self),
                        *final(self),
                        old(source).rest().skip(2),
                        old(self).storage.alookup@.dom(),
                    ) && final(source).pos() == old(source).pos() + 2 + universe_stop(
                        old(source).rest().skip(2),
                        old(self).storage.alookup@.dom(),
                    )
                } else {
                    *final(self) == *old(self) && final(source).pos() == old(source).pos() + 2
                },
                Err(_) => *final(self) == *old(self) && final(source).pos() == old(source).pos(),
            },
    {
        let ghost s0 = source.rest();
        let version = source.u16()?;
        if version != UNIVERSE_VERSION {
            return Err(LoadError::UnknownVersion);
        }
        assert(source.rest() =~= s0.skip(2));
        self.load_1(source)
    }

    /// Writes the universe file with its version header.
    pub fn save(&self, target: &mut Writer)
        requires
            self.wf_structure(),
        ensures
            final(target)@ == old(target)@ + u16_le(UNIVERSE_VERSION) + universe_bytes(
                universe_file(*self),
            ),
    {
        target.u16(UNIVERSE_VERSION);
        self.save_1(target);
    }

    /// Whether the lookup finds each actor of the commune by its id, that
    /// is, whether no two actors of the commune share an id.
    pub fn commune_ids_distinct(&self) -> (r: bool)
        requires
            self.wf_structure(),
        ensures
            r == self.commune_found(),
    {
        let mut k: usize = 0;
        while k < self.commune.actors.len()
            invariant
                self.wf_structure(),
                k <= self.commune.actors@.len(),
                forall|j: int|
                    0 <= j < k ==> self.storage.alookup@.contains_key(
                        self.storage.actors@[(#[trigger] self.commune.actors@[j]).0].body.id,
                    ) && self.storage.alookup@[self.storage.actors@[self.commune.actors@[j].0].body.id]
                        == self.commune.actors@[j],
            decreases self.commune.actors@.len() - k,
        {
            let index = self.commune.actors[k];
            assert(self.storage.actors@.contains_key(self.commune.actors@[k as int].0));
            let actor = self.storage.actors.get(index).unwrap();
            match self.storage.alookup.get(&actor.get_id()) {
                Some(found) => {
                    if *found != index {
                        return false;
                    }
                },
                None => {
                    return false;
                },
            }
            k = k + 1;
        }
        true
    }

    /// Reads a count and that many records into a new slab, in slot order.
    pub fn load_vector_1<T: Load1>(source: &mut Reader) -> (r: Result<Slab<T>, LoadError>)
        ensures
            final(source).data() == old(source).data(),
            final(source).pos() <= final(source).data().len(),
            match parse_counted(old(source).rest(), loader::<T>()) {
                Ok((ps, n)) => r matches Ok(slab) && slab.wf() && slab.free().len() == 0
                    && occupied(slab.slots()).map_values(load_planner::<T>()) == ps
                    && final(source).pos() == old(source).pos() + n,
                Err(e) => r matches Err(f) && f == e,
            },
            r is Err ==> final(source).pos() == old(source).pos() + counted_stop(
                old(source).rest(),
                loader::<T>(),
                stopper::<T>(),
            ),
    {
        let ghost s0 = source.rest();
        let count = source.count()?;
        assert(source.rest() =~= s0.skip(4));
        let ghost s1 = source.rest();
        let ghost p1 = source.pos();
        let mut result: Slab<T> = Slab::new();
        let mut i: u32 = 0;
        proof {
            assert(occupied(result.slots()).map_values(load_planner::<T>()) =~= Seq::<T::Plan>::empty());
        }
        while i < count
            invariant
                source.data() == old(source).data(),
                source.pos() <= source.data().len(),
                p1 <= source.pos(),
                s1 == source.data().skip(p1 as int),
                s1 == s0.skip(4),
                s0 == old(source).rest(),
                p1 == old(source).pos() + 4,
                parse_u32(s0) == Ok::<(u32, nat), LoadError>((count, 4)),
                i <= count,
                result.wf(),
                result.free().len() == 0,
                forall|j: int| 0 <= j < result.slots().len() ==> (#[trigger] result.slots()[j]) is Some,
                many_so_far(
                    parse_many(s1, count as nat, loader::<T>()),
                    occupied(result.slots()).map_values(load_planner::<T>()),
                    (source.pos() - p1) as nat,
                    parse_many(source.rest(), (count - i) as nat, loader::<T>()),
                ),
                many_stop(s1, count as nat, loader::<T>(), stopper::<T>()) == (source.pos() - p1)
                    + many_stop(source.rest(), (count - i) as nat, loader::<T>(), stopper::<T>()),
            decreases count - i,
        {
            let ghost before = *source;
            let ghost prev = result.slots();
            let ghost prev_view = result@;
            let item = match T::load_1(source) {
                Ok(x) => x,
                Err(e) => {
                    assert(many_stop(before.rest(), (count - i) as nat, loader::<T>(), stopper::<T>())
                        == T::stop_1(before.rest()));
                    return Err(e);
                },
            };
            let ghost plan = item.load_plan();
            result.insert(item);
            proof {
                let k = (source.pos() - before.pos()) as nat;
                assert(before.rest().skip(k as int) =~= source.rest());
                lemma_many_step(
                    parse_many(s1, count as nat, loader::<T>()),
                    occupied(prev).map_values(load_planner::<T>()),
                    (before.pos() - p1) as nat,
                    before.rest(),
                    (count - i) as nat,
                    loader::<T>(),
                    plan,
                    k,
                );
                let slots = result.slots();
                assert(slots.len() == prev.len() + 1);
                assert(slots.drop_last() =~= prev) by {
                    assert forall|j: int| 0 <= j < prev.len() implies slots[j] == prev[j] by {
                        assert(prev[j] is Some);
                        assert(prev_view.contains_key(j as usize));
                        assert(result@.contains_key(j as usize));
                        assert(result@[j as usize] == prev_view[j as usize]);
                    }
                }
                assert(slots.last() == Some(item)) by {
                    assert(result@.contains_key(prev.len() as usize));
                    assert(result@[prev.len() as usize] == item);
                }
                assert forall|j: int| 0 <= j < slots.len() implies (#[trigger] slots[j]) is Some by {
                    if j < prev.len() {
                        assert(slots[j] == slots.drop_last()[j]);
                    }
                }
                assert(occupied(slots).map_values(load_planner::<T>()) =~= occupied(prev).map_values(
                    load_planner::<T>(),
                ).push(plan));
            }
            i = i + 1;
        }
        proof {
            let done = occupied(result.slots()).map_values(load_planner::<T>());
            assert(done + Seq::<T::Plan>::empty() =~= done);
        }
        Ok(result)
    }

    /// Writes the number of records and the record of each stored value, in
    /// slot order.
    pub fn save_vector_1<T: Save1>(data: &Slab<T>, target: &mut Writer)
        requires
            data.wf(),
        ensures
            final(target)@ == old(target)@ + counted_bytes(
                occupied(data.slots()).map_values(save_planner::<T>()),
                saver::<T>(),
            ),
    {
        let ghost slots = data.slots();
        target.count(data.len());
        let ghost head = target@;
        let mut it = data.all();
        proof {
            assert(slots.take(0) =~= Seq::<Option<T>>::empty());
            assert(occupied(slots.take(0)).map_values(save_planner::<T>()) =~= Seq::<T::Plan>::empty());
        }
        loop
            invariant_except_break
                it.slots() == slots,
                it.pos() <= slots.len(),
                target@ == head + many_bytes(
                    occupied(slots.take(it.pos() as int)).map_values(save_planner::<T>()),
                    saver::<T>(),
                ),
            ensures
                target@ == head + many_bytes(
                    occupied(slots).map_values(save_planner::<T>()),
                    saver::<T>(),
                ),
            decreases slots.len() - it.pos(),
        {
            let ghost p0 = it.pos();
            let ghost before = it;
            let next = it.next();
            assert(before.slots() == slots);
            match next {
                Some(item) => {
                    assert(slots[it.pos() - 1] == Some(*item));
                    item.save_1(target);
                    proof {
                        lemma_occupied_bytes_step(
                            slots,
                            p0 as int,
                            it.pos() as int,
                            *item,
                            save_planner::<T>(),
                            saver::<T>(),
                        );
                    }
                },
                None => {
                    proof {
                        lemma_occupied_gap(slots, p0 as int, slots.len() as int);
                        assert(slots.take(slots.len() as int) =~= slots);
                    }
                    break;
                },
            }
        }
    }

    /// Adds every stored actor to the commune, in slot order.
    pub fn move_actors(uni: &mut Universe)
        ensures
            final(uni).commune.actors@ == old(uni).commune.actors@ + occupied_slots(
                old(uni).storage.actors.slots(),
            ),
            final(uni).storage == old(uni).storage,
            final(uni).realm == old(uni).realm,
            final(uni).commune.billing == old(uni).commune.billing,
            final(uni).timetick == old(uni).timetick,
            final(uni).lastseqid == old(uni).lastseqid,
            final(uni).dispatcher == old(uni).dispatcher,
    {
        let ghost slots = uni.storage.actors.slots();
        let mut indices: Vec<SlabIndex> = Vec::new();
        {
            let mut it = uni.storage.actors.iter();
            proof {
                assert(slots.take(0) =~= Seq::<Option<Actor>>::empty());
                assert(occupied_slots(slots.take(0)) =~= Seq::<SlabIndex>::empty());
            }
            loop
                invariant_except_break
                    it.slots() == slots,
                    it.pos() <= slots.len(),
                    slots.len() <= usize::MAX,
                    indices@ == occupied_slots(slots.take(it.pos() as int)),
                ensures
                    indices@ == occupied_slots(slots),
                decreases slots.len() - it.pos(),
            {
                let ghost p0 = it.pos();
                let ghost before = it;
                let next = it.next();
                assert(before.slots() == slots);
                match next {
                    Some(index) => {
                        indices.push(index);
                        proof {
                            lemma_occupied_slots_step(slots, p0 as int, index.0 as int);
                        }
                    },
                    None => {
                        proof {
                            lemma_occupied_slots_gap(slots, p0 as int, slots.len() as int);
                            assert(slots.take(slots.len() as int) =~= slots);
                        }
                        break;
                    },
                }
            }
        }
        let mut k: usize = 0;
        let ghost c0 = uni.commune.actors@;
        while k < indices.len()
            invariant
                k <= indices@.len(),
                uni.commune.actors@ == c0 + indices@.take(k as int),
                uni.storage == old(uni).storage,
                uni.realm == old(uni).realm,
                uni.commune.billing == old(uni).commune.billing,
                uni.timetick == old(uni).timetick,
                uni.lastseqid == old(uni).lastseqid,
                uni.dispatcher == old(uni).dispatcher,
                c0 == old(uni).commune.actors@,
            decreases indices@.len() - k,
        {
            uni.commune.insert(indices[k]);
            assert(indices@.take(k + 1) =~= indices@.take(k as int).push(indices@[k as int]));
            k = k + 1;
        }
        assert(indices@.take(indices@.len() as int) =~= indices@);
    }

    /// The actor in slot `index` takes one step of its control, with what
    /// the application drew or computed for the unit whose turn it is. Only
    /// that actor changes, and it keeps its id and home, so the universe
    /// stays consistent and the dispatcher is left alone.
    pub fn control_step(&mut self, index: SlabIndex, input: UnitInput)
        requires
            old(self).wf(),
            old(self).storage.actors@.contains_key(index.0),
        ensures
            final(self).wf(),
            final(self).timetick == old(self).timetick,
            final(self).lastseqid == old(self).lastseqid,
            final(self).commune == old(self).commune,
            final(self).realm == old(self).realm,
            final(self).storage.worlds == old(self).storage.worlds,
            final(self).storage.alookup == old(self).storage.alookup,
            final(self).dispatcher == old(self).dispatcher,
            final(self).storage.actors@.dom() == old(self).storage.actors@.dom(),
            final(self).storage.actors@ == old(self).storage.actors@.insert(
                index.0,
                final(self).storage.actors@[index.0],
            ),
            control_stepped(
                old(self).storage.actors@[index.0],
                final(self).storage.actors@[index.0],
                input,
            ),
    {
        let ghost actors0 = self.storage.actors@;
        let actor = self.storage.actors.get_mut(index).unwrap();
        match input {
            UnitInput::Sensed { bits } => {
                actor.control.values.credits = bits;
            },
            UnitInput::Signal { birth } => {
                actor.control.values.birth = birth;
            },
            UnitInput::Giveaway { drawn } => {
                let unit = BirthCredit { giveaway: crate::control::Sampler { nominal: 0 } };
                unit.tick(drawn, &mut actor.control.values, &mut actor.body);
            },
            UnitInput::Ready { seed } => {
                actor.control.values.seeds.push_back(seed);
            },
            UnitInput::Spawn => {
                let unit = Spawner {  };
                unit.tick(&mut actor.control.values, &mut actor.body);
            },
        }
        proof {
            let actors = self.storage.actors@;
            let lookup = self.storage.alookup@;
            assert(actors.dom() =~= actors0.dom());
            assert forall|w: usize| #[trigger]
                self.storage.worlds@.contains_key(w) implies self.realm.worlds@.contains(SlabIndex(w))
                && all_present(actors, self.storage.worlds@[w].actors@) by {
                assert(all_present(actors0, self.storage.worlds@[w].actors@));
            }
            assert forall|id: u64| #[trigger]
                lookup.contains_key(id) implies actors.contains_key(lookup[id].0)
                && actors[lookup[id].0].body.id == id by {
                assert(actors0.contains_key(lookup[id].0));
            }
            assert forall|k: int|
                0 <= k < self.commune.actors@.len() implies lookup.contains_key(
                actors[(#[trigger] self.commune.actors@[k]).0].body.id,
            ) && lookup[actors[self.commune.actors@[k].0].body.id] == self.commune.actors@[k] by {
                assert(actors0.contains_key(self.commune.actors@[k].0));
            }
        }
    }

    /// A child maker's turn for the actor in slot `index`: takes the seed
    /// waiting longest for a blueprint and gives it the blueprint of the
    /// actor's units; the application varies it and hands it back with
    /// `control_step`. Only that actor's waiting seeds change.
    pub fn take_seed(&mut self, index: SlabIndex) -> (r: Option<Seed>)
        requires
            old(self).wf(),
            old(self).storage.actors@.contains_key(index.0),
        ensures
            final(self).wf(),
            final(self).timetick == old(self).timetick,
            final(self).lastseqid == old(self).lastseqid,
            final(self).commune == old(self).commune,
            final(self).realm == old(self).realm,
            final(self).storage.worlds == old(self).storage.worlds,
            final(self).storage.alookup == old(self).storage.alookup,
            final(self).dispatcher == old(self).dispatcher,
            final(self).storage.actors@.dom() == old(self).storage.actors@.dom(),
            final(self).storage.actors@ == old(self).storage.actors@.insert(
                index.0,
                final(self).storage.actors@[index.0],
            ),
            ({
                let a = old(self).storage.actors@[index.0];
                let b = final(self).storage.actors@[index.0];
                let va = a.control.values;
                let vb = b.control.values;
                &&& b.body == a.body
                &&& b.control.units == a.control.units
                &&& vb.values == va.values && vb.credits == va.credits && vb.birth == va.birth
                &&& vb.seeds == va.seeds
                &&& va.birthcredits@.len() == 0 ==> r is None && vb.birthcredits
                    == va.birthcredits
                &&& va.birthcredits@.len() > 0 ==> {
                    &&& r matches Some(seed) && seed.credits == va.birthcredits@[0].credits
                        && plan_of(seed.blueprints) == units_plan(a.control.units.units@)
                    &&& vb.birthcredits@ == va.birthcredits@.drop_first()
                }
            }),
    {
        let ghost actors0 = self.storage.actors@;
        let actor = self.storage.actors.get_mut(index).unwrap();
        let maker = ChildMaker { variator: crate::control::Variator { precision: 0 } };
        let r = maker.take_seed(&actor.control.units, &mut actor.control.values);
        proof {
            let actors = self.storage.actors@;
            let lookup = self.storage.alookup@;
            assert(actors.dom() =~= actors0.dom());
            assert forall|w: usize| #[trigger]
                self.storage.worlds@.contains_key(w) implies self.realm.worlds@.contains(SlabIndex(w))
                && all_present(actors, self.storage.worlds@[w].actors@) by {
                assert(all_present(actors0, self.storage.worlds@[w].actors@));
            }
            assert forall|id: u64| #[trigger]
                lookup.contains_key(id) implies actors.contains_key(lookup[id].0)
                && actors[lookup[id].0].body.id == id by {
                assert(actors0.contains_key(lookup[id].0));
            }
            assert forall|k: int|
                0 <= k < self.commune.actors@.len() implies lookup.contains_key(
                actors[(#[trigger] self.commune.actors@[k]).0].body.id,
            ) && lookup[actors[self.commune.actors@[k].0].body.id] == self.commune.actors@[k] by {
                assert(actors0.contains_key(self.commune.actors@[k].0));
            }
        }
        r
    }

    /// The slot of the actor with the given id.
    pub fn lookup_actor(&self, id: u64) -> (r: SlabIndex)
        requires
            self.storage.alookup@.contains_key(id),
        ensures
            r == self.storage.alookup@[id],
    {
        *self.storage.alookup.get(&id).unwrap()
    }
}

} // verus!
