//! Finding the bonds that are overloaded by the forces on a body.

use crate::actor::ActorModel;
use crate::commands::{
    ordered_commands, sort_fracture_commands, DamageSource, DeterministicOrderKey, FractureCommand,
    FractureTarget,
};
use crate::family::{FamilyModel, FxFamily};
use crate::geometry::{dot_product, origin, vec_finite, vec_scaled, vec_sum, Vec2};
use crate::idmap::{ascending, has_key, lookup, put, IdMap};
use crate::ids::{FxActorId, SupportNodeId};
use crate::order::{key_le, key_of, lemma_sorted_len, list_of, sort_stable, sorted_by, SortKey};
use crate::scalar::{
    absolute, at_most, below, clamped, equals, maximum, negated, product, quotient, Scalar,
    ONE_BITS,
};
use crate::stress_graph::{
    anchor_edges, bond_edges, collect_context, connection_edges, context_nodes, edge_axes,
    order_rank, plain_context, rank_order_key, stress_edge_axes, stress_edges,
    stress_fixed_reachable_nodes, stress_graph_edges, supported, ContextModel, StressContext2D,
    StressEdgeTarget, StressGraphEdge, StressInput, StressNodeContext2D, DEFAULT_EPSILON_BITS,
};
use crate::stress_solve::{edge_loads, FieldModel, StressEdgeLoad, StressField};
use vstd::prelude::*;

verus! {

/// The bit pattern of `0.001`, the least share of its strength that a bond keeps.
pub const LEAST_STRENGTH_BITS: u32 = 0x3a83_126f;

#[derive(Clone, Copy, Debug, PartialEq, Eq, Structural)]
pub struct StressSettings {
    pub tension_limit_scale: Scalar,
    pub shear_limit_scale: Scalar,
    pub damage_per_overload: Scalar,
    pub max_fractures_per_frame: u16,
    pub max_iterations: u16,
    pub convergence_epsilon: Scalar,
    pub enable_gravity: bool,
}

impl Default for StressSettings {
    fn default() -> (r: Self)
        ensures
            r == (StressSettings {
                tension_limit_scale: Scalar { bits: ONE_BITS },
                shear_limit_scale: Scalar { bits: ONE_BITS },
                damage_per_overload: Scalar { bits: ONE_BITS },
                max_fractures_per_frame: u16::MAX,
                max_iterations: 8,
                convergence_epsilon: Scalar { bits: DEFAULT_EPSILON_BITS },
                enable_gravity: true,
            }),
    {
        let one = Scalar { bits: ONE_BITS };
        StressSettings {
            tension_limit_scale: one,
            shear_limit_scale: one,
            damage_per_overload: one,
            max_fractures_per_frame: u16::MAX,
            max_iterations: 8,
            convergence_epsilon: Scalar { bits: DEFAULT_EPSILON_BITS },
            enable_gravity: true,
        }
    }
}

#[derive(Clone, Copy, Debug, PartialEq, Eq, Structural)]
pub struct StressSolver2D {
    pub settings: StressSettings,
}

/// How much the solver had to do.
#[derive(Clone, Copy, Debug, PartialEq, Eq, Structural)]
pub struct StressProfile {
    pub input_count: usize,
    pub actor_count_visited: usize,
    pub actors_with_input: usize,
    pub internal_bond_candidates: usize,
    pub internal_bonds_tested: usize,
    pub external_bond_candidates: usize,
    pub external_bonds_tested: usize,
    pub dynamic_structural_bonds_tested: usize,
    pub generated_commands_before_cap: usize,
    pub generated_commands_after_cap: usize,
    pub frame_cap: u16,
}

impl Default for StressProfile {
    fn default() -> (r: Self)
        ensures
            r == (StressProfile {
                input_count: 0,
                actor_count_visited: 0,
                actors_with_input: 0,
                internal_bond_candidates: 0,
                internal_bonds_tested: 0,
                external_bond_candidates: 0,
                external_bonds_tested: 0,
                dynamic_structural_bonds_tested: 0,
                generated_commands_before_cap: 0,
                generated_commands_after_cap: 0,
                frame_cap: 0,
            }),
    {
        StressProfile {
            input_count: 0,
            actor_count_visited: 0,
            actors_with_input: 0,
            internal_bond_candidates: 0,
            internal_bonds_tested: 0,
            external_bond_candidates: 0,
            external_bonds_tested: 0,
            dynamic_structural_bonds_tested: 0,
            generated_commands_before_cap: 0,
            generated_commands_after_cap: 0,
            frame_cap: 0,
        }
    }
}

#[derive(Debug, PartialEq)]
pub struct StressSolveReport {
    pub commands: Vec<FractureCommand>,
    pub profile: StressProfile,
}

/// A load split by what it does to a bond.
#[derive(Clone, Copy, Debug, PartialEq, Eq, Structural)]
pub struct SignedStressLoad2D {
    pub tension: Scalar,
    pub compression: Scalar,
    pub shear: Scalar,
}

/// The load of a force along the axis and one across it.
pub open spec fn signed_load(normal_load: Scalar, shear_load: Scalar) -> SignedStressLoad2D {
    let zero = Scalar { bits: 0 };
    SignedStressLoad2D {
        tension: maximum(normal_load, zero),
        compression: maximum(negated(normal_load), zero),
        shear: absolute(shear_load),
    }
}

/// The load of a force at the first end of an edge.
pub open spec fn first_side(force: Vec2, normal: Vec2, tangent: Vec2) -> SignedStressLoad2D {
    signed_load(dot_product(force, normal), dot_product(force, tangent))
}

/// The load of a force at the second end of an edge.
pub open spec fn second_side(force: Vec2, normal: Vec2, tangent: Vec2) -> SignedStressLoad2D {
    signed_load(negated(dot_product(force, normal)), dot_product(force, tangent))
}

/// The worse of two loads in each respect.
pub open spec fn worse_load(a: SignedStressLoad2D, b: SignedStressLoad2D) -> SignedStressLoad2D {
    SignedStressLoad2D {
        tension: maximum(a.tension, b.tension),
        compression: maximum(a.compression, b.compression),
        shear: maximum(a.shear, b.shear),
    }
}

impl SignedStressLoad2D {
    fn from_signed_components(normal_load: Scalar, shear_load: Scalar) -> (r: Self)
        ensures
            r == signed_load(normal_load, shear_load),
    {
        let zero = Scalar { bits: 0 };
        SignedStressLoad2D {
            tension: normal_load.max(zero),
            compression: normal_load.negate().max(zero),
            shear: shear_load.abs(),
        }
    }

    pub fn node_a_side(force: Vec2, normal: Vec2, tangent: Vec2) -> (r: Self)
        ensures
            r == first_side(force, normal, tangent),
    {
        Self::from_signed_components(force.dot(normal), force.dot(tangent))
    }

    pub fn node_b_side(force: Vec2, normal: Vec2, tangent: Vec2) -> (r: Self)
        ensures
            r == second_side(force, normal, tangent),
    {
        Self::from_signed_components(force.dot(normal).negate(), force.dot(tangent))
    }

    pub fn external_node_side(force: Vec2, normal: Vec2, tangent: Vec2) -> (r: Self)
        ensures
            r == first_side(force, normal, tangent),
    {
        Self::from_signed_components(force.dot(normal), force.dot(tangent))
    }

    pub fn combine_sides(a: Self, b: Self) -> (r: Self)
        ensures
            r == worse_load(a, b),
    {
        SignedStressLoad2D {
            tension: a.tension.max(b.tension),
            compression: a.compression.max(b.compression),
            shear: a.shear.max(b.shear),
        }
    }
}

/// What the forces add up to: the force on each node, and for each actor its earliest order key
/// and the source of its first force.
pub ghost struct SumsModel {
    pub forces: Seq<(u32, Vec2)>,
    pub first_keys: Seq<(u32, DeterministicOrderKey)>,
    pub sources: Seq<(u32, DamageSource)>,
}

impl SumsModel {
    pub open spec fn wf(self) -> bool {
        ascending(self.forces) && ascending(self.first_keys) && ascending(self.sources)
    }
}

pub struct StressSums {
    pub forces: IdMap<Vec2>,
    pub first_keys: IdMap<DeterministicOrderKey>,
    pub sources: IdMap<DamageSource>,
}

impl View for StressSums {
    type V = SumsModel;

    open spec fn view(&self) -> SumsModel {
        SumsModel {
            forces: self.forces@,
            first_keys: self.first_keys@,
            sources: self.sources@,
        }
    }
}

/// The earlier of two order keys.
pub open spec fn earlier(a: DeterministicOrderKey, b: DeterministicOrderKey) -> DeterministicOrderKey {
    if key_le(order_rank(a), order_rank(b)) {
        a
    } else {
        b
    }
}

/// The sums with a force more.
pub open spec fn with_force(
    s: SumsModel,
    node: SupportNodeId,
    actor: FxActorId,
    force: Vec2,
    key: Option<DeterministicOrderKey>,
    source: DamageSource,
) -> SumsModel {
    SumsModel {
        forces: put(
            s.forces,
            node.0,
            vec_sum(
                match lookup(s.forces, node.0) {
                    Some(v) => v,
                    None => origin(),
                },
                force,
            ),
        ),
        first_keys: match key {
            Some(k) => put(
                s.first_keys,
                actor.0,
                match lookup(s.first_keys, actor.0) {
                    Some(old) => earlier(old, k),
                    None => k,
                },
            ),
            None => s.first_keys,
        },
        sources: if has_key(s.sources, actor.0) {
            s.sources
        } else {
            put(s.sources, actor.0, source)
        },
    }
}

impl StressSums {
    fn add_force(
        &mut self,
        node: SupportNodeId,
        actor: FxActorId,
        force: Vec2,
        key: Option<DeterministicOrderKey>,
        source: DamageSource,
    )
        requires
            old(self)@.wf(),
        ensures
            final(self)@ == with_force(old(self)@, node, actor, force, key, source),
            final(self)@.wf(),
    {
        let was = match self.forces.get(node.0) {
            Some(v) => *v,
            None => Vec2::zero(),
        };
        let _ = self.forces.insert(node.0, was.plus(force));
        if let Some(k) = key {
            let first = match self.first_keys.get(actor.0) {
                Some(old) => if rank_order_key(old).not_after(&rank_order_key(&k)) {
                    *old
                } else {
                    k
                },
                None => k,
            };
            let _ = self.first_keys.insert(actor.0, first);
        }
        if !self.sources.contains(actor.0) {
            let _ = self.sources.insert(actor.0, source);
        }
    }
}

/// The sums of the first `n` forces.
pub open spec fn input_sums(inputs: Seq<StressInput>, n: int) -> SumsModel
    decreases n,
{
    if n <= 0 {
        SumsModel { forces: Seq::empty(), first_keys: Seq::empty(), sources: Seq::empty() }
    } else {
        let i = inputs[n - 1];
        with_force(
            input_sums(inputs, n - 1),
            i.node,
            i.actor,
            i.force,
            Some(i.order_key),
            i.source,
        )
    }
}

/// The order keys of the first `n` entries by actor; a later entry replaces an earlier one.
pub open spec fn fallback_keys(list: Seq<(FxActorId, DeterministicOrderKey)>, n: int) -> Seq<
    (u32, DeterministicOrderKey),
>
    decreases n,
{
    if n <= 0 {
        Seq::empty()
    } else {
        put(fallback_keys(list, n - 1), list[n - 1].0.0, list[n - 1].1)
    }
}

/// Gravity acts: it is switched on, finite and not zero.
pub open spec fn gravity_acts(settings: StressSettings, gravity: Vec2) -> bool {
    let zero = Scalar { bits: 0 };
    settings.enable_gravity && vec_finite(gravity) && (!equals(gravity.x, zero) || !equals(
        gravity.y,
        zero,
    ))
}

/// The sums with the weights of the first `n` nodes, as far as they are supported.
pub open spec fn weighed(
    f: FamilyModel,
    c: ContextModel,
    ctx: Seq<(u32, StressNodeContext2D)>,
    s: SumsModel,
    n: int,
) -> SumsModel
    decreases n,
{
    if n <= 0 {
        s
    } else {
        let before = weighed(f, c, ctx, s, n - 1);
        let node = SupportNodeId(ctx[n - 1].0);
        let mass = ctx[n - 1].1.mass;
        let fallback = fallback_keys(c.fallback_order_keys, c.fallback_order_keys.len() as int);
        match f.owner_of(node) {
            Some(actor) => if supported(f, ctx, node) && mass.finite() && !at_most(
                mass,
                Scalar { bits: 0 },
            ) {
                with_force(
                    before,
                    node,
                    actor,
                    vec_scaled(c.gravity, mass),
                    lookup(fallback, actor.0),
                    DamageSource::Stress,
                )
            } else {
                before
            },
            None => before,
        }
    }
}

/// All forces: those given and, where gravity acts, the weights.
pub open spec fn all_sums(
    settings: StressSettings,
    f: FamilyModel,
    c: ContextModel,
    inputs: Seq<StressInput>,
) -> SumsModel {
    let sorted = sorted_by(inputs, key_of::<StressInput>());
    let given = input_sums(sorted, sorted.len() as int);
    let ctx = context_nodes(f, c);
    if gravity_acts(settings, c.gravity) {
        weighed(f, c, ctx, given, ctx.len() as int)
    } else {
        given
    }
}

/// An actor with the order key of its earliest force.
pub open spec fn claim_of(f: FamilyModel, s: SumsModel, node: SupportNodeId) -> Option<
    (FxActorId, DeterministicOrderKey),
> {
    match f.owner_of(node) {
        Some(actor) => match lookup(s.first_keys, actor.0) {
            Some(key) => Some((actor, key)),
            None => None,
        },
        None => None,
    }
}

/// The place of a claim among others: by order key, then by actor.
pub open spec fn claim_rank(c: (FxActorId, DeterministicOrderKey)) -> SortKey {
    SortKey { e: c.0.0 as u64, ..order_rank(c.1) }
}

/// The earlier of the claims of the two ends of a connection.
pub open spec fn connection_claim(f: FamilyModel, s: SumsModel, a: SupportNodeId, b: SupportNodeId) -> Option<
    (FxActorId, DeterministicOrderKey),
> {
    match (claim_of(f, s, a), claim_of(f, s, b)) {
        (Some(x), Some(y)) => if key_le(claim_rank(x), claim_rank(y)) {
            Some(x)
        } else {
            Some(y)
        },
        (Some(x), None) => Some(x),
        (None, y) => y,
    }
}

/// The actor that the damage to an edge counts for, with the order key of the damage.
pub open spec fn edge_claim(f: FamilyModel, s: SumsModel, e: StressGraphEdge) -> Option<
    (FxActorId, DeterministicOrderKey),
> {
    match e.target {
        StressEdgeTarget::Connection(_) => connection_claim(f, s, e.node_a, e.node_b->0),
        _ => claim_of(f, s, e.node_a),
    }
}

/// The load of an edge split by what it does.
pub open spec fn edge_load(
    e: StressGraphEdge,
    ctx: Seq<(u32, StressNodeContext2D)>,
    load: StressEdgeLoad,
) -> SignedStressLoad2D {
    let (normal, tangent) = edge_axes(e, ctx);
    match e.target {
        StressEdgeTarget::ExternalBond(_) => first_side(load.node_a_force, normal, tangent),
        _ => worse_load(
            first_side(load.node_a_force, normal, tangent),
            second_side(load.node_b_force, normal, tangent),
        ),
    }
}

/// The share of its strength that an edge still has.
pub open spec fn strength_share(e: StressGraphEdge) -> Scalar {
    let zero = Scalar { bits: 0 };
    let ratio = if below(zero, e.base_health) {
        clamped(quotient(e.health, e.base_health), zero, Scalar { bits: ONE_BITS })
    } else {
        zero
    };
    maximum(ratio, Scalar { bits: LEAST_STRENGTH_BITS })
}

pub open spec fn target_of(t: StressEdgeTarget) -> FractureTarget {
    match t {
        StressEdgeTarget::Bond(id) => FractureTarget::Bond(id),
        StressEdgeTarget::ExternalBond(id) => FractureTarget::ExternalBond(id),
        StressEdgeTarget::Connection(id) => FractureTarget::Connection(id),
    }
}

/// The damage that a load does to an edge: none unless it is over the limit for tension or for
/// shear. Compression does none.
pub open spec fn overload(
    settings: StressSettings,
    f: FamilyModel,
    ctx: Seq<(u32, StressNodeContext2D)>,
    s: SumsModel,
    e: StressGraphEdge,
    load: Option<StressEdgeLoad>,
) -> Option<FractureCommand> {
    match (load, edge_claim(f, s, e)) {
        (Some(load), Some((actor, order_key))) => {
            let signed = edge_load(e, ctx, load);
            let share = strength_share(e);
            let tension_limit = product(
                product(e.tension_limit, settings.tension_limit_scale),
                share,
            );
            let shear_limit = product(product(e.shear_limit, settings.shear_limit_scale), share);
            if at_most(signed.tension, tension_limit) && at_most(signed.shear, shear_limit) {
                None
            } else {
                Some(
                    FractureCommand {
                        order_key,
                        actor,
                        target: target_of(e.target),
                        health_loss: settings.damage_per_overload,
                        effective_length_loss: if below(tension_limit, signed.tension) {
                            e.effective_length
                        } else {
                            Scalar { bits: 0 }
                        },
                        source: match lookup(s.sources, actor.0) {
                            Some(source) => source,
                            None => DamageSource::Stress,
                        },
                    },
                )
            }
        },
        _ => None,
    }
}

/// The damage to the first `n` edges.
pub open spec fn overloads(
    settings: StressSettings,
    f: FamilyModel,
    ctx: Seq<(u32, StressNodeContext2D)>,
    s: SumsModel,
    edges: Seq<StressGraphEdge>,
    loads: Seq<Option<StressEdgeLoad>>,
    n: int,
) -> Seq<FractureCommand>
    decreases n,
{
    if n <= 0 {
        Seq::empty()
    } else {
        let before = overloads(settings, f, ctx, s, edges, loads, n - 1);
        match overload(settings, f, ctx, s, edges[n - 1], loads[n - 1]) {
            Some(c) => before.push(c),
            None => before,
        }
    }
}

/// The commands of one actor among the first `n`.
pub open spec fn commands_on(commands: Seq<FractureCommand>, actor: FxActorId, n: int) -> Seq<
    FractureCommand,
>
    decreases n,
{
    if n <= 0 {
        Seq::empty()
    } else if commands[n - 1].actor == actor {
        commands_on(commands, actor, n - 1).push(commands[n - 1])
    } else {
        commands_on(commands, actor, n - 1)
    }
}

/// The first commands of an actor, up to the cap.
pub open spec fn capped(commands: Seq<FractureCommand>, actor: FxActorId, cap: int) -> Seq<
    FractureCommand,
> {
    let own = ordered_commands(commands_on(commands, actor, commands.len() as int));
    if own.len() <= cap {
        own
    } else {
        own.take(cap)
    }
}

/// The capped commands of the first `n` of some actors.
pub open spec fn capped_upto(
    commands: Seq<FractureCommand>,
    actors: Seq<(u32, ActorModel)>,
    cap: int,
    n: int,
) -> Seq<FractureCommand>
    decreases n,
{
    if n <= 0 {
        Seq::empty()
    } else {
        capped_upto(commands, actors, cap, n - 1) + capped(
            commands,
            FxActorId(actors[n - 1].0),
            cap,
        )
    }
}

/// How many commands the first `n` of some actors have.
pub open spec fn owned_count(
    commands: Seq<FractureCommand>,
    actors: Seq<(u32, ActorModel)>,
    n: int,
) -> int
    decreases n,
{
    if n <= 0 {
        0
    } else {
        owned_count(commands, actors, n - 1) + commands_on(
            commands,
            FxActorId(actors[n - 1].0),
            commands.len() as int,
        ).len()
    }
}

pub open spec fn field_of(
    settings: StressSettings,
    f: FamilyModel,
    c: ContextModel,
    inputs: Seq<StressInput>,
) -> FieldModel {
    let ctx = context_nodes(f, c);
    FieldModel {
        edges: stress_edges(f),
        ctx,
        sup: Seq::new(ctx.len(), |p: int| supported(f, ctx, SupportNodeId(ctx[p].0))),
        forces: all_sums(settings, f, c, inputs).forces,
    }
}

/// The damage before it is capped.
pub open spec fn raw_commands(
    settings: StressSettings,
    f: FamilyModel,
    c: ContextModel,
    inputs: Seq<StressInput>,
) -> Seq<FractureCommand> {
    let fd = field_of(settings, f, c, inputs);
    let loads = edge_loads(fd, settings.max_iterations as nat, settings.convergence_epsilon);
    overloads(
        settings,
        f,
        fd.ctx,
        all_sums(settings, f, c, inputs),
        fd.edges,
        loads,
        fd.edges.len() as int,
    )
}

/// The commands that the solver gives.
pub open spec fn stress_commands(
    settings: StressSettings,
    f: FamilyModel,
    c: ContextModel,
    inputs: Seq<StressInput>,
) -> Seq<FractureCommand> {
    ordered_commands(
        capped_upto(
            raw_commands(settings, f, c, inputs),
            f.actors,
            settings.max_fractures_per_frame as int,
            f.actors.len() as int,
        ),
    )
}

/// How much the solver has to do.
pub open spec fn stress_profile(
    settings: StressSettings,
    f: FamilyModel,
    c: ContextModel,
    inputs: Seq<StressInput>,
) -> StressProfile {
    let raw = raw_commands(settings, f, c, inputs);
    StressProfile {
        input_count: inputs.len() as usize,
        actor_count_visited: f.actors.len() as usize,
        actors_with_input: all_sums(settings, f, c, inputs).first_keys.len() as usize,
        internal_bond_candidates: f.asset.internal_bonds.len() as usize,
        internal_bonds_tested: bond_edges(f, f.asset.internal_bonds.len() as int).len() as usize,
        external_bond_candidates: f.external_bonds.len() as usize,
        external_bonds_tested: anchor_edges(f, f.external_bonds.len() as int).len() as usize,
        dynamic_structural_bonds_tested: connection_edges(
            f,
            f.dynamic_structural_bonds.len() as int,
        ).len() as usize,
        generated_commands_before_cap: owned_count(raw, f.actors, f.actors.len() as int) as usize,
        generated_commands_after_cap: stress_commands(settings, f, c, inputs).len() as usize,
        frame_cap: settings.max_fractures_per_frame,
    }
}

proof fn lemma_one_owner(
    commands: Seq<FractureCommand>,
    actors: Seq<(u32, ActorModel)>,
    n: int,
)
    requires
        ascending(actors),
        commands.len() > 0,
        0 <= n <= actors.len(),
    ensures
        owned_count(commands, actors, n) <= owned_count(commands.drop_last(), actors, n) + 1,
        (forall|i: int| 0 <= i < n ==> (#[trigger] actors[i]).0 != commands.last().actor.0)
            ==> owned_count(commands, actors, n) == owned_count(commands.drop_last(), actors, n),
    decreases n,
{
    if n > 0 {
        lemma_one_owner(commands, actors, n - 1);
        let last = commands.len() as int;
        let short = commands.drop_last();
        let actor = FxActorId(actors[n - 1].0);
        lemma_commands_on_prefix(commands, short, actor, last - 1);
        assert(commands_on(commands, actor, last - 1) == commands_on(short, actor, last - 1));
        if commands.last().actor == actor {
            assert forall|i: int| 0 <= i < n - 1 implies (#[trigger] actors[i]).0
                != commands.last().actor.0 by {
                assert(actors[i].0 < actors[n - 1].0);
            }
        } else {
            assert(actors[n - 1].0 != commands.last().actor.0 || commands.last().actor == actor);
        }
    }
}

proof fn lemma_commands_on_prefix(
    a: Seq<FractureCommand>,
    b: Seq<FractureCommand>,
    actor: FxActorId,
    n: int,
)
    requires
        0 <= n <= a.len(),
        n <= b.len(),
        forall|i: int| 0 <= i < n ==> #[trigger] a[i] == b[i],
    ensures
        commands_on(a, actor, n) == commands_on(b, actor, n),
    decreases n,
{
    if n > 0 {
        lemma_commands_on_prefix(a, b, actor, n - 1);
        assert(a[n - 1] == b[n - 1]);
    }
}

/// Every command counts for one actor at most.
proof fn lemma_owned_count(
    commands: Seq<FractureCommand>,
    actors: Seq<(u32, ActorModel)>,
    n: int,
)
    requires
        ascending(actors),
        0 <= n <= actors.len(),
    ensures
        owned_count(commands, actors, n) <= commands.len(),
    decreases commands.len(),
{
    if commands.len() == 0 {
        lemma_no_commands(commands, actors, n);
    } else {
        lemma_owned_count(commands.drop_last(), actors, n);
        lemma_one_owner(commands, actors, n);
    }
}

proof fn lemma_no_commands(
    commands: Seq<FractureCommand>,
    actors: Seq<(u32, ActorModel)>,
    n: int,
)
    requires
        commands.len() == 0,
    ensures
        owned_count(commands, actors, n) == 0,
    decreases n,
{
    if n > 0 {
        lemma_no_commands(commands, actors, n - 1);
    }
}

fn sum_inputs(inputs: &[StressInput]) -> (r: StressSums)
    ensures
        r@ == input_sums(sorted_by(inputs@, key_of::<StressInput>()), inputs.len() as int),
        r@.wf(),
{
    let mut sorted = list_of(inputs);
    sort_stable(&mut sorted);
    let ghost s = sorted@;
    proof {
        lemma_sorted_len(inputs@, key_of::<StressInput>());
    }
    let mut sums = StressSums {
        forces: IdMap::new(),
        first_keys: IdMap::new(),
        sources: IdMap::new(),
    };
    let mut i: usize = 0;
    assert(sums@ == input_sums(s, 0));
    while i < sorted.len()
        invariant
            i <= sorted.len(),
            s == sorted@,
            sums@ == input_sums(s, i as int),
            sums@.wf(),
        decreases sorted.len() - i,
    {
        let input = sorted[i];
        sums.add_force(input.node, input.actor, input.force, Some(input.order_key), input.source);
        i = i + 1;
    }
    sums
}

fn collect_fallback(list: &Vec<(FxActorId, DeterministicOrderKey)>) -> (r: IdMap<
    DeterministicOrderKey,
>)
    ensures
        r@ == fallback_keys(list@, list.len() as int),
        ascending(r@),
{
    let mut map = IdMap::<DeterministicOrderKey>::new();
    let mut i: usize = 0;
    while i < list.len()
        invariant
            i <= list.len(),
            map@ == fallback_keys(list@, i as int),
            ascending(map@),
        decreases list.len() - i,
    {
        let _ = map.insert(list[i].0.0, list[i].1);
        i = i + 1;
    }
    map
}

/// Adds the weights of supported nodes.
fn weigh(
    family: &FxFamily,
    context: &StressContext2D,
    ctx: &IdMap<StressNodeContext2D>,
    sup: &Vec<bool>,
    sums: &mut StressSums,
)
    requires
        family@.wf(),
        ascending(ctx@),
        sup.len() == ctx@.len(),
        forall|p: int|
            0 <= p < sup.len() ==> #[trigger] sup[p] == supported(
                family@,
                ctx@,
                SupportNodeId(ctx@[p].0),
            ),
        old(sums)@.wf(),
    ensures
        final(sums)@ == weighed(family@, context@, ctx@, old(sums)@, ctx@.len() as int),
        final(sums)@.wf(),
{
    let ghost f = family@;
    let ghost c = context@;
    let ghost start = sums@;
    let fallback = collect_fallback(&context.fallback_order_keys);
    let mut i: usize = 0;
    while i < ctx.entries.len()
        invariant
            i <= ctx.entries.len(),
            f == family@,
            f.wf(),
            c == context@,
            ascending(ctx@),
            fallback@ == fallback_keys(
                c.fallback_order_keys,
                c.fallback_order_keys.len() as int,
            ),
            ascending(fallback@),
            sup.len() == ctx@.len(),
            forall|p: int|
                0 <= p < sup.len() ==> #[trigger] sup[p] == supported(
                    f,
                    ctx@,
                    SupportNodeId(ctx@[p].0),
                ),
            sums@ == weighed(f, c, ctx@, start, i as int),
            sums@.wf(),
        decreases ctx.entries.len() - i,
    {
        let node = SupportNodeId(ctx.entries[i].0);
        let mass = ctx.entries[i].1.mass;
        if sup[i] && mass.is_finite() && !mass.is_at_most(Scalar { bits: 0 }) {
            if let Some(actor) = family.node_owner.get(node.0) {
                let key: Option<DeterministicOrderKey> = match fallback.get(actor.0) {
                    Some(k) => Some(*k),
                    None => None,
                };
                sums.add_force(
                    node,
                    *actor,
                    context.gravity.scaled(mass),
                    key,
                    DamageSource::Stress,
                );
            }
        }
        i = i + 1;
    }
}

fn find_claim(family: &FxFamily, sums: &StressSums, node: SupportNodeId) -> (r: Option<
    (FxActorId, DeterministicOrderKey),
>)
    requires
        family@.wf(),
        sums@.wf(),
    ensures
        r == claim_of(family@, sums@, node),
{
    match family.node_owner.get(node.0) {
        Some(actor) => match sums.first_keys.get(actor.0) {
            Some(key) => Some((*actor, *key)),
            None => None,
        },
        None => None,
    }
}

fn rank_claim(c: &(FxActorId, DeterministicOrderKey)) -> (r: SortKey)
    ensures
        r == claim_rank(*c),
{
    let k = rank_order_key(&c.1);
    SortKey { a: k.a, b: k.b, c: k.c, d: k.d, e: c.0.0 as u64, f: k.f }
}

/// Finds the actor that the damage to an edge counts for.
fn stress_command_actor_and_order(
    family: &FxFamily,
    sums: &StressSums,
    edge: &StressGraphEdge,
) -> (r: Option<(FxActorId, DeterministicOrderKey)>)
    requires
        family@.wf(),
        sums@.wf(),
        edge.target is Connection ==> edge.node_b is Some,
    ensures
        r == edge_claim(family@, sums@, *edge),
{
    match edge.target {
        StressEdgeTarget::Connection(_) => {
            let a = find_claim(family, sums, edge.node_a);
            let b = match edge.node_b {
                Some(node) => find_claim(family, sums, node),
                None => None,
            };
            match (a, b) {
                (Some(x), Some(y)) => if rank_claim(&x).not_after(&rank_claim(&y)) {
                    Some(x)
                } else {
                    Some(y)
                },
                (Some(x), None) => Some(x),
                (None, y) => y,
            }
        },
        _ => find_claim(family, sums, edge.node_a),
    }
}

impl StressSolver2D {
    pub fn new(settings: StressSettings) -> (r: Self)
        ensures
            r.settings == settings,
    {
        StressSolver2D { settings }
    }

    /// The damage that a load does to an edge.
    fn judge(
        &self,
        family: &FxFamily,
        ctx: &IdMap<StressNodeContext2D>,
        sums: &StressSums,
        edge: &StressGraphEdge,
        load: Option<StressEdgeLoad>,
    ) -> (r: Option<FractureCommand>)
        requires
            family@.wf(),
            ascending(ctx@),
            sums@.wf(),
            edge.target is Connection ==> edge.node_b is Some,
        ensures
            r == overload(self.settings, family@, ctx@, sums@, *edge, load),
    {
        let load = match load {
            Some(load) => load,
            None => {
                return None;
            },
        };
        let (actor, order_key) = match stress_command_actor_and_order(family, sums, edge) {
            Some(claim) => claim,
            None => {
                return None;
            },
        };
        let zero = Scalar { bits: 0 };
        let (normal, tangent) = stress_edge_axes(edge, ctx);
        let signed = match edge.target {
            StressEdgeTarget::ExternalBond(_) => SignedStressLoad2D::external_node_side(
                load.node_a_force,
                normal,
                tangent,
            ),
            _ => SignedStressLoad2D::combine_sides(
                SignedStressLoad2D::node_a_side(load.node_a_force, normal, tangent),
                SignedStressLoad2D::node_b_side(load.node_b_force, normal, tangent),
            ),
        };
        let ratio = if zero.is_below(edge.base_health) {
            edge.health.over(edge.base_health).clamp(zero, Scalar { bits: ONE_BITS })
        } else {
            zero
        };
        let share = ratio.max(Scalar { bits: LEAST_STRENGTH_BITS });
        let tension_limit = edge.tension_limit.times(self.settings.tension_limit_scale).times(
            share,
        );
        let shear_limit = edge.shear_limit.times(self.settings.shear_limit_scale).times(share);
        if signed.tension.is_at_most(tension_limit) && signed.shear.is_at_most(shear_limit) {
            return None;
        }
        Some(
            FractureCommand {
                order_key,
                actor,
                target: match edge.target {
                    StressEdgeTarget::Bond(id) => FractureTarget::Bond(id),
                    StressEdgeTarget::ExternalBond(id) => FractureTarget::ExternalBond(id),
                    StressEdgeTarget::Connection(id) => FractureTarget::Connection(id),
                },
                health_loss: self.settings.damage_per_overload,
                effective_length_loss: if tension_limit.is_below(signed.tension) {
                    edge.effective_length
                } else {
                    zero
                },
                source: match sums.sources.get(actor.0) {
                    Some(source) => *source,
                    None => DamageSource::Stress,
                },
            },
        )
    }
}

/// The commands of one actor, in order and up to the cap, and how many there were.
fn cap_commands(commands: &Vec<FractureCommand>, actor: FxActorId, cap: u16) -> (r: (
    Vec<FractureCommand>,
    usize,
))
    ensures
        r.0@ == capped(commands@, actor, cap as int),
        r.1 == commands_on(commands@, actor, commands.len() as int).len(),
{
    let mut own: Vec<FractureCommand> = Vec::new();
    let mut i: usize = 0;
    while i < commands.len()
        invariant
            i <= commands.len(),
            own@ == commands_on(commands@, actor, i as int),
        decreases commands.len() - i,
    {
        if commands[i].actor == actor {
            own.push(commands[i]);
        }
        i = i + 1;
    }
    proof {
        lemma_sorted_len(own@, key_of::<FractureCommand>());
    }
    let count: usize = own.len();
    sort_fracture_commands(&mut own);
    let ghost sorted = own@;
    if own.len() > cap as usize {
        own.truncate(cap as usize);
        assert(own@ =~= sorted.take(cap as int));
    }
    (own, count)
}

proof fn lemma_edges_ended(f: FamilyModel)
    requires
        f.wf(),
    ensures
        forall|i: int|
            0 <= i < stress_edges(f).len() && (#[trigger] stress_edges(f)[i]).target is Connection
                ==> stress_edges(f)[i].node_b is Some,
{
    let a = bond_edges(f, f.asset.internal_bonds.len() as int);
    let b = anchor_edges(f, f.external_bonds.len() as int);
    let c = connection_edges(f, f.dynamic_structural_bonds.len() as int);
    lemma_bond_edges_kind(f, f.asset.internal_bonds.len() as int);
    lemma_anchor_edges_kind(f, f.external_bonds.len() as int);
    lemma_connection_edges_kind(f, f.dynamic_structural_bonds.len() as int);
    let all = stress_edges(f);
    assert forall|i: int| 0 <= i < all.len() && (#[trigger] all[i]).target is Connection implies all[i].node_b is Some by {
        if i < a.len() {
            assert(all[i] == a[i]);
        } else if i < a.len() + b.len() {
            assert(all[i] == b[i - a.len()]);
        } else {
            assert(all[i] == c[i - a.len() - b.len()]);
        }
    }
}

proof fn lemma_bond_edges_kind(f: FamilyModel, n: int)
    ensures
        forall|i: int|
            0 <= i < bond_edges(f, n).len() ==> (#[trigger] bond_edges(f, n)[i]).target is Bond,
    decreases n,
{
    if n > 0 {
        lemma_bond_edges_kind(f, n - 1);
        let before = bond_edges(f, n - 1);
        assert forall|i: int| 0 <= i < bond_edges(f, n).len() implies (
        #[trigger] bond_edges(f, n)[i]).target is Bond by {
            if i < before.len() {
                assert(before[i].target is Bond);
            }
        }
    }
}

proof fn lemma_anchor_edges_kind(f: FamilyModel, n: int)
    ensures
        forall|i: int|
            0 <= i < anchor_edges(f, n).len() ==> (
            #[trigger] anchor_edges(f, n)[i]).target is ExternalBond,
    decreases n,
{
    if n > 0 {
        lemma_anchor_edges_kind(f, n - 1);
        let before = anchor_edges(f, n - 1);
        assert forall|i: int| 0 <= i < anchor_edges(f, n).len() implies (
        #[trigger] anchor_edges(f, n)[i]).target is ExternalBond by {
            if i < before.len() {
                assert(before[i].target is ExternalBond);
            }
        }
    }
}

proof fn lemma_connection_edges_kind(f: FamilyModel, n: int)
    ensures
        forall|i: int|
            0 <= i < connection_edges(f, n).len() ==> (
            #[trigger] connection_edges(f, n)[i]).node_b is Some,
    decreases n,
{
    if n > 0 {
        lemma_connection_edges_kind(f, n - 1);
        let before = connection_edges(f, n - 1);
        assert forall|i: int| 0 <= i < connection_edges(f, n).len() implies (
        #[trigger] connection_edges(f, n)[i]).node_b is Some by {
            if i < before.len() {
                assert(before[i].node_b is Some);
            }
        }
    }
}

impl StressSolver2D {
    /// The damage to all edges, before it is capped.
    fn judge_all(
        &self,
        family: &FxFamily,
        ctx: &IdMap<StressNodeContext2D>,
        sums: &StressSums,
        edges: &Vec<StressGraphEdge>,
        loads: &Vec<Option<StressEdgeLoad>>,
    ) -> (r: Vec<FractureCommand>)
        requires
            family@.wf(),
            ascending(ctx@),
            sums@.wf(),
            loads.len() == edges.len(),
            edges@ == stress_edges(family@),
        ensures
            r@ == overloads(
                self.settings,
                family@,
                ctx@,
                sums@,
                edges@,
                loads@,
                edges.len() as int,
            ),
    {
        let ghost f = family@;
        proof {
            lemma_edges_ended(f);
        }
        let mut raw: Vec<FractureCommand> = Vec::new();
        let mut i: usize = 0;
        while i < edges.len()
            invariant
                i <= edges.len(),
                f == family@,
                f.wf(),
                ascending(ctx@),
                sums@.wf(),
                loads.len() == edges.len(),
                forall|i: int|
                    0 <= i < edges@.len() && (#[trigger] edges@[i]).target is Connection
                        ==> edges@[i].node_b is Some,
                raw@ == overloads(self.settings, f, ctx@, sums@, edges@, loads@, i as int),
            decreases edges.len() - i,
        {
            assert(edges@[i as int].target is Connection ==> edges@[i as int].node_b is Some);
            if let Some(command) = self.judge(family, ctx, sums, &edges[i], loads[i]) {
                raw.push(command);
            }
            i = i + 1;
        }
        raw
    }

    /// Finds the damage that forces do in a context, and how much there was to do.
    pub fn generate_with_context_and_profile(
        &self,
        family: &FxFamily,
        context: &StressContext2D,
        inputs: &[StressInput],
    ) -> (r: StressSolveReport)
        requires
            family@.wf(),
        ensures
            r.commands@ == stress_commands(self.settings, family@, context@, inputs@),
            r.profile == stress_profile(self.settings, family@, context@, inputs@),
    {
        let ghost f = family@;
        let ghost c = context@;
        let ghost st = self.settings;
        proof {
            lemma_sorted_len(inputs@, key_of::<StressInput>());
        }
        let mut sums = sum_inputs(inputs);
        let ctx = collect_context(family, context);
        let sup = stress_fixed_reachable_nodes(family, &ctx);
        let zero = Scalar { bits: 0 };
        if self.settings.enable_gravity && context.gravity.is_finite() && (
        !context.gravity.x.equals_value(zero) || !context.gravity.y.equals_value(zero)) {
            weigh(family, context, &ctx, &sup, &mut sums);
        }
        assert(sums@ == all_sums(st, f, c, inputs@));
        let (edges, bonds, anchors) = stress_graph_edges(family);
        let field = StressField { edges: &edges, ctx: &ctx, sup: &sup, forces: &sums.forces };
        let ghost fd = field_of(st, f, c, inputs@);
        proof {
            assert(sup@ =~= fd.sup);
            assert(field@ == fd);
        }
        let held = field.stress_solve_anchored_residuals(
            self.settings.max_iterations,
            self.settings.convergence_epsilon,
        );
        let loads = field.stress_solve_free_residual_paths(
            held,
            self.settings.max_iterations,
            self.settings.convergence_epsilon,
        );
        let raw = self.judge_all(family, &ctx, &sums, &edges, &loads);
        assert(raw@ == raw_commands(st, f, c, inputs@));
        let cap = self.settings.max_fractures_per_frame;
        let mut before_cap: usize = 0;
        let mut commands: Vec<FractureCommand> = Vec::new();
        let mut i: usize = 0;
        while i < family.actors.entries.len()
            invariant
                i <= family.actors.entries.len(),
                f == family@,
                f.wf(),
                before_cap == owned_count(raw@, f.actors, i as int),
                commands@ == capped_upto(raw@, f.actors, cap as int, i as int),
            decreases family.actors.entries.len() - i,
        {
            let id = FxActorId(family.actors.entries[i].0);
            assert(f.actors[i as int].0 == id.0);
            let (mut own, count) = cap_commands(&raw, id, cap);
            proof {
                lemma_owned_count(raw@, f.actors, i + 1);
            }
            before_cap = before_cap + count;
            commands.append(&mut own);
            i = i + 1;
        }
        let ghost unsorted = commands@;
        sort_fracture_commands(&mut commands);
        proof {
            lemma_sorted_len(unsorted, key_of::<FractureCommand>());
        }
        let profile = StressProfile {
            input_count: inputs.len(),
            actor_count_visited: family.actors.entries.len(),
            actors_with_input: sums.first_keys.len(),
            internal_bond_candidates: family.asset.internal_bonds.len(),
            internal_bonds_tested: bonds,
            external_bond_candidates: family.external_bonds.entries.len(),
            external_bonds_tested: anchors,
            dynamic_structural_bonds_tested: edges.len() - bonds - anchors,
            generated_commands_before_cap: before_cap,
            generated_commands_after_cap: commands.len(),
            frame_cap: cap,
        };
        StressSolveReport { commands, profile }
    }

    pub fn generate_with_context(
        &self,
        family: &FxFamily,
        context: &StressContext2D,
        inputs: &[StressInput],
    ) -> (r: Vec<FractureCommand>)
        requires
            family@.wf(),
        ensures
            r@ == stress_commands(self.settings, family@, context@, inputs@),
    {
        self.generate_with_context_and_profile(family, context, inputs).commands
    }

    pub fn generate_with_profile(&self, family: &FxFamily, inputs: &[StressInput]) -> (r:
        StressSolveReport)
        requires
            family@.wf(),
        ensures
            r.commands@ == stress_commands(
                self.settings,
                family@,
                plain_context(family@),
                inputs@,
            ),
            r.profile == stress_profile(self.settings, family@, plain_context(family@), inputs@),
    {
        let context = StressContext2D::from_family(family);
        self.generate_with_context_and_profile(family, &context, inputs)
    }

    /// Finds the damage that forces do.
    pub fn generate(&self, family: &FxFamily, inputs: &[StressInput]) -> (r: Vec<FractureCommand>)
        requires
            family@.wf(),
        ensures
            r@ == stress_commands(self.settings, family@, plain_context(family@), inputs@),
    {
        self.generate_with_profile(family, inputs).commands
    }
}

} // verus!
