//! What holds of the damage that the solver lets through.

use crate::actor::ActorModel;
use crate::commands::{ordered_commands, FractureCommand};
use crate::components::lemma_filter_in_order;
use crate::family::FamilyModel;
use crate::idmap::{ascending, has_key, lemma_lookup_found, lookup};
use crate::ids::{FxActorId, SupportNodeId};
use crate::order::{
    in_order, insert_sorted, key_le, key_of, lemma_sorted_idle, lemma_sorted_in_order,
    lemma_sorted_len, sorted_by, SortKey,
};
use crate::stress::{
    all_sums, capped, capped_upto, claim_of, commands_on, edge_claim, field_of, overload,
    overloads, owned_count, raw_commands, stress_commands, stress_profile, StressSettings,
    SumsModel,
};
use crate::stress_graph::{ContextModel, StressGraphEdge, StressInput, StressNodeContext2D};
use crate::stress_solve::{edge_loads, StressEdgeLoad};
use vstd::prelude::*;

verus! {

/// The commands of an actor, in their order.
pub open spec fn commands_of(commands: Seq<FractureCommand>, actor: FxActorId) -> Seq<
    FractureCommand,
> {
    commands.filter(|c: FractureCommand| c.actor == actor)
}

/// The first items, as many as there are up to a number.
pub open spec fn first_of<T>(s: Seq<T>, n: int) -> Seq<T> {
    if s.len() <= n {
        s
    } else {
        s.take(n)
    }
}

/// Putting an item in its place among those that pass a test.
proof fn lemma_insert_filter<T>(s: Seq<T>, x: T, key: spec_fn(T) -> SortKey, p: spec_fn(T) -> bool)
    requires
        in_order(s, key),
    ensures
        insert_sorted(s, x, key).filter(p) == if p(x) {
            insert_sorted(s.filter(p), x, key)
        } else {
            s.filter(p)
        },
    decreases s.len(),
{
    reveal(Seq::filter);
    let r = insert_sorted(s, x, key);
    let kept = s.filter(p);
    if s.len() == 0 || key_le(key(s.last()), key(x)) {
        assert(r.drop_last() =~= s);
        if p(x) && kept.len() > 0 {
            lemma_filter_in_order(s, p, key);
            assert(key_le(key(kept[kept.len() - 1]), key(s.last())));
        }
    } else {
        let t = s.drop_last();
        lemma_insert_filter(t, x, key, p);
        assert(r.drop_last() =~= insert_sorted(t, x, key));
        if p(s.last()) {
            assert(kept.drop_last() =~= t.filter(p));
            assert(kept.last() == s.last());
        }
    }
}

/// Sorting and then picking out is picking out and then sorting.
pub proof fn lemma_sorted_filter<T>(s: Seq<T>, key: spec_fn(T) -> SortKey, p: spec_fn(T) -> bool)
    ensures
        sorted_by(s, key).filter(p) == sorted_by(s.filter(p), key),
    decreases s.len(),
{
    reveal(Seq::filter);
    if s.len() > 0 {
        let t = s.drop_last();
        lemma_sorted_filter(t, key, p);
        lemma_sorted_in_order(t, key);
        lemma_insert_filter(sorted_by(t, key), s.last(), key, p);
        if p(s.last()) {
            assert(s.filter(p).drop_last() =~= t.filter(p));
        }
    }
}

/// Where all items pass the test, or none does.
pub proof fn lemma_filter_whole<T>(s: Seq<T>, p: spec_fn(T) -> bool)
    ensures
        (forall|i: int| 0 <= i < s.len() ==> p(#[trigger] s[i])) ==> s.filter(p) == s,
        (forall|i: int| 0 <= i < s.len() ==> !p(#[trigger] s[i])) ==> s.filter(p) == Seq::<T>::empty(),
    decreases s.len(),
{
    reveal(Seq::filter);
    if s.len() > 0 {
        let t = s.drop_last();
        lemma_filter_whole(t, p);
        if forall|i: int| 0 <= i < s.len() ==> p(#[trigger] s[i]) {
            assert(forall|i: int| 0 <= i < t.len() ==> #[trigger] t[i] == s[i]);
            assert(p(s[s.len() - 1]));
            assert(t.push(s.last()) =~= s);
        }
        if forall|i: int| 0 <= i < s.len() ==> !p(#[trigger] s[i]) {
            assert(forall|i: int| 0 <= i < t.len() ==> #[trigger] t[i] == s[i]);
            assert(!p(s[s.len() - 1]));
        }
    }
}

proof fn lemma_commands_on(commands: Seq<FractureCommand>, actor: FxActorId, n: int)
    requires
        0 <= n <= commands.len(),
    ensures
        commands_on(commands, actor, n) == commands_of(commands.take(n), actor),
    decreases n,
{
    reveal(Seq::filter);
    if n > 0 {
        lemma_commands_on(commands, actor, n - 1);
        assert(commands.take(n).drop_last() =~= commands.take(n - 1));
    }
}

/// The capped commands of an actor are its first ones.
proof fn lemma_capped(commands: Seq<FractureCommand>, actor: FxActorId, cap: int)
    requires
        0 <= cap,
    ensures
        capped(commands, actor, cap) == first_of(
            commands_of(ordered_commands(commands), actor),
            cap,
        ),
        in_order(capped(commands, actor, cap), key_of::<FractureCommand>()),
        forall|i: int|
            0 <= i < capped(commands, actor, cap).len() ==> (#[trigger] capped(
                commands,
                actor,
                cap,
            )[i]).actor == actor,
{
    let key = key_of::<FractureCommand>();
    let p = |c: FractureCommand| c.actor == actor;
    let all = ordered_commands(commands);
    lemma_commands_on(commands, actor, commands.len() as int);
    assert(commands.take(commands.len() as int) =~= commands);
    lemma_sorted_filter(commands, key, p);
    let own = commands_of(all, actor);
    lemma_sorted_in_order(commands, key);
    lemma_filter_in_order(all, p, key);
    let kept = capped(commands, actor, cap);
    assert forall|i: int| 0 <= i < kept.len() implies (#[trigger] kept[i]).actor == actor by {
        assert(kept[i] == own[i]);
        all.lemma_filter_pred(p, i);
    }
    assert forall|i: int, j: int| 0 <= i <= j < kept.len() implies key_le(
        key(#[trigger] kept[i]),
        key(#[trigger] kept[j]),
    ) by {
        assert(kept[i] == own[i] && kept[j] == own[j]);
    }
}

/// Picking out one actor from the capped commands of several.
proof fn lemma_capped_upto(
    commands: Seq<FractureCommand>,
    actors: Seq<(u32, ActorModel)>,
    actor: FxActorId,
    cap: int,
    n: int,
)
    requires
        ascending(actors),
        0 <= cap,
        0 <= n <= actors.len(),
    ensures
        commands_of(capped_upto(commands, actors, cap, n), actor) == if exists|i: int|
            0 <= i < n && (#[trigger] actors[i]).0 == actor.0 {
            capped(commands, actor, cap)
        } else {
            Seq::empty()
        },
    decreases n,
{
    let p = |c: FractureCommand| c.actor == actor;
    if n <= 0 {
        lemma_filter_whole(capped_upto(commands, actors, cap, n), p);
    } else {
        let other = FxActorId(actors[n - 1].0);
        let own = capped(commands, other, cap);
        lemma_capped_upto(commands, actors, actor, cap, n - 1);
        Seq::filter_distributes_over_add(capped_upto(commands, actors, cap, n - 1), own, p);
        lemma_capped(commands, other, cap);
        lemma_filter_whole(own, p);
        if actor == other {
            assert(own.filter(p) == own);
            assert forall|i: int| 0 <= i < n - 1 implies (#[trigger] actors[i]).0 != actor.0 by {
                assert(actors[i].0 < actors[n - 1].0);
            }
            assert(actors[n - 1].0 == actor.0);
        } else {
            assert(actors[n - 1].0 != actor.0);
            assert forall|i: int| 0 <= i < own.len() implies !p(#[trigger] own[i]) by {}
            assert(own.filter(p) == Seq::<FractureCommand>::empty());
            if exists|i: int| 0 <= i < n && (#[trigger] actors[i]).0 == actor.0 {
                let i = choose|i: int| 0 <= i < n && (#[trigger] actors[i]).0 == actor.0;
                assert(0 <= i < n - 1 && actors[i].0 == actor.0);
            }
        }
    }
}

proof fn lemma_claims_known(f: FamilyModel, s: SumsModel, e: StressGraphEdge)
    requires
        f.wf(),
        edge_claim(f, s, e) is Some,
    ensures
        has_key(f.actors, (edge_claim(f, s, e)->0).0.0),
{
    assert forall|node: SupportNodeId| (#[trigger] claim_of(f, s, node)) is Some implies has_key(
        f.actors,
        (claim_of(f, s, node)->0).0.0,
    ) by {
        assert(lookup(f.node_owner, node.0) is Some);
    }
}

/// Damage counts for actors that there are.
proof fn lemma_raw_known(
    settings: StressSettings,
    f: FamilyModel,
    ctx: Seq<(u32, StressNodeContext2D)>,
    s: SumsModel,
    edges: Seq<StressGraphEdge>,
    loads: Seq<Option<StressEdgeLoad>>,
    n: int,
)
    requires
        f.wf(),
    ensures
        forall|i: int|
            0 <= i < overloads(settings, f, ctx, s, edges, loads, n).len() ==> has_key(
                f.actors,
                (#[trigger] overloads(settings, f, ctx, s, edges, loads, n)[i]).actor.0,
            ),
    decreases n,
{
    if n > 0 {
        lemma_raw_known(settings, f, ctx, s, edges, loads, n - 1);
        if overload(settings, f, ctx, s, edges[n - 1], loads[n - 1]) is Some {
            lemma_claims_known(f, s, edges[n - 1]);
        }
    }
}

proof fn lemma_raw_actors(
    settings: StressSettings,
    f: FamilyModel,
    c: ContextModel,
    inputs: Seq<StressInput>,
)
    requires
        f.wf(),
    ensures
        forall|i: int|
            0 <= i < raw_commands(settings, f, c, inputs).len() ==> has_key(
                f.actors,
                (#[trigger] raw_commands(settings, f, c, inputs)[i]).actor.0,
            ),
{
    let fd = field_of(settings, f, c, inputs);
    lemma_raw_known(
        settings,
        f,
        fd.ctx,
        all_sums(settings, f, c, inputs),
        fd.edges,
        edge_loads(fd, settings.max_iterations as nat, settings.convergence_epsilon),
        fd.edges.len() as int,
    );
}

/// The last command counts for just one of the actors, or for none.
proof fn lemma_count_last(
    commands: Seq<FractureCommand>,
    actors: Seq<(u32, ActorModel)>,
    n: int,
)
    requires
        ascending(actors),
        commands.len() > 0,
        0 <= n <= actors.len(),
    ensures
        owned_count(commands, actors, n) == owned_count(commands.drop_last(), actors, n) + if exists|
            i: int,
        |
            0 <= i < n && (#[trigger] actors[i]).0 == commands.last().actor.0 {
            1int
        } else {
            0
        },
    decreases n,
{
    let who = commands.last().actor;
    if n > 0 {
        lemma_count_last(commands, actors, n - 1);
        let actor = FxActorId(actors[n - 1].0);
        let len = commands.len() as int;
        lemma_commands_on(commands, actor, len - 1);
        lemma_commands_on(commands.drop_last(), actor, len - 1);
        assert(commands.take(len - 1) =~= commands.drop_last().take(len - 1));
        if actor == who {
            assert forall|i: int| 0 <= i < n - 1 implies (#[trigger] actors[i]).0 != who.0 by {
                assert(actors[i].0 < actors[n - 1].0);
            }
            assert(actors[n - 1].0 == who.0);
        } else {
            assert(actors[n - 1].0 != who.0);
            if exists|i: int| 0 <= i < n && (#[trigger] actors[i]).0 == who.0 {
                let i = choose|i: int| 0 <= i < n && (#[trigger] actors[i]).0 == who.0;
                assert(0 <= i < n - 1 && actors[i].0 == who.0);
            }
        }
    }
}

/// Where all commands are of known actors, each of them is counted.
proof fn lemma_count_all(commands: Seq<FractureCommand>, actors: Seq<(u32, ActorModel)>)
    requires
        ascending(actors),
        forall|i: int| 0 <= i < commands.len() ==> has_key(actors, (#[trigger] commands[i]).actor.0),
    ensures
        owned_count(commands, actors, actors.len() as int) == commands.len(),
    decreases commands.len(),
{
    let n = actors.len() as int;
    if commands.len() == 0 {
        lemma_count_none(commands, actors, n);
    } else {
        let t = commands.drop_last();
        assert(forall|i: int| 0 <= i < t.len() ==> #[trigger] t[i] == commands[i]);
        lemma_count_all(t, actors);
        lemma_count_last(commands, actors, n);
        assert(has_key(actors, commands[commands.len() - 1].actor.0));
        lemma_lookup_found(actors, commands.last().actor.0);
    }
}

proof fn lemma_count_none(commands: Seq<FractureCommand>, actors: Seq<(u32, ActorModel)>, n: int)
    requires
        commands.len() == 0,
        0 <= n,
    ensures
        owned_count(commands, actors, n) == 0,
    decreases n,
{
    if n > 0 {
        lemma_count_none(commands, actors, n - 1);
    }
}

/// Of each actor the solver lets the first commands through, in the order of their keys, up to the
/// cap; the others do not matter. All that come through are in the order of their keys. The
/// report counts all commands before the cap and those let through.
pub proof fn lemma_commands_are_capped(
    settings: StressSettings,
    f: FamilyModel,
    c: ContextModel,
    inputs: Seq<StressInput>,
    actor: FxActorId,
)
    requires
        f.wf(),
    ensures
        ({
            let raw = raw_commands(settings, f, c, inputs);
            let given = stress_commands(settings, f, c, inputs);
            let cap = settings.max_fractures_per_frame as int;
            let profile = stress_profile(settings, f, c, inputs);
            &&& commands_of(given, actor) == first_of(
                commands_of(ordered_commands(raw), actor),
                cap,
            )
            &&& commands_of(given, actor).len() <= cap
            &&& in_order(given, key_of::<FractureCommand>())
            &&& profile.generated_commands_before_cap == raw.len() as usize
            &&& profile.generated_commands_after_cap == given.len() as usize
        }),
{
    let key = key_of::<FractureCommand>();
    let p = |c: FractureCommand| c.actor == actor;
    let raw = raw_commands(settings, f, c, inputs);
    let cap = settings.max_fractures_per_frame as int;
    let n = f.actors.len() as int;
    let kept = capped_upto(raw, f.actors, cap, n);
    lemma_raw_actors(settings, f, c, inputs);
    lemma_count_all(raw, f.actors);
    lemma_sorted_in_order(kept, key);
    lemma_sorted_filter(kept, key, p);
    lemma_capped_upto(raw, f.actors, actor, cap, n);
    lemma_capped(raw, actor, cap);
    if has_key(f.actors, actor.0) {
        lemma_lookup_found(f.actors, actor.0);
        lemma_sorted_idle(capped(raw, actor, cap), key);
    } else {
        if exists|i: int| 0 <= i < n && (#[trigger] f.actors[i]).0 == actor.0 {
            let i = choose|i: int| 0 <= i < n && (#[trigger] f.actors[i]).0 == actor.0;
            assert(has_key(f.actors, f.actors[i].0));
        }
        lemma_filter_whole(raw, p);
        lemma_sorted_filter(raw, key, p);
        lemma_sorted_len(raw.filter(p), key);
        assert(commands_of(ordered_commands(raw), actor) =~= Seq::<FractureCommand>::empty());
    }
}

} // verus!
