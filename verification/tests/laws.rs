use fracture_core::bonding::{split_edge_islands, BondStrength, EdgeSample};
use fracture_core::{
    actor_components, apply_fracture_commands, split_dirty_actors, BondId, CommandId, DamageSource,
    DenseOccupancy, DeterministicOrderKey, FractureCommand, FractureTarget, FxActorId, FxAsset,
    FxAssetDesc, FxAssetId, FxFamily, FxFamilyId, InterfaceEdge, LatticePoint, Scalar, StressInput,
    StressSettings, StressSolver2D, SupportNodeId, ValidationError, Vec2,
};

fn s(value: f32) -> Scalar {
    Scalar::from_bits(value.to_bits())
}

fn asset_from_row(row: &str) -> FxAsset {
    let occupancy = DenseOccupancy::from_rows(&[row]).unwrap();
    let nodes = (0..row.len() as u32).map(|i| Some(SupportNodeId(i))).collect();
    let mut desc = FxAssetDesc::new(FxAssetId(7), s(1.0), occupancy, nodes);
    desc.default_bond_health = s(10.0);
    desc.default_tension_limit = s(10.0);
    desc.default_shear_limit = s(10.0);
    FxAsset::from_desc(desc).unwrap()
}

fn family(row: &str) -> FxFamily {
    FxFamily::instantiate(FxFamilyId(3), asset_from_row(row))
}

fn hit(bond: u32) -> FractureCommand {
    FractureCommand {
        order_key: DeterministicOrderKey::new(
            1,
            1,
            FxFamilyId(3),
            FxActorId(0),
            CommandId(bond),
        ),
        actor: FxActorId(0),
        target: FractureTarget::Bond(BondId(bond)),
        health_loss: s(20.0),
        effective_length_loss: s(20.0),
        source: DamageSource::Script,
    }
}

fn sample(nodes: (u32, u32), start: (u32, u32), end: (u32, u32)) -> EdgeSample {
    EdgeSample {
        node_a: SupportNodeId(nodes.0),
        node_b: SupportNodeId(nodes.1),
        edge: InterfaceEdge {
            start: LatticePoint::new(start.0, start.1),
            end: LatticePoint::new(end.0, end.1),
        },
        normal: Vec2::new(s(1.0), s(0.0)),
    }
}

#[test]
fn edges_are_joined_in_whatever_order_they_come() {
    let samples = vec![
        sample((0, 1), (1, 5), (1, 6)),
        sample((0, 1), (1, 2), (1, 3)),
        sample((0, 1), (1, 1), (1, 2)),
        sample((0, 1), (1, 0), (1, 1)),
    ];
    assert_eq!(split_edge_islands(&samples), [vec![3, 2, 1], vec![0]]);
    assert!(split_edge_islands(&Vec::new()).is_empty());
}

#[test]
fn edges_are_joined_by_touch_alone() {
    let samples = vec![
        sample((2, 3), (1, 1), (1, 2)),
        sample((0, 1), (1, 0), (1, 1)),
        sample((0, 1), (4, 0), (4, 1)),
    ];
    assert_eq!(split_edge_islands(&samples), [vec![1, 0], vec![2]]);
}

#[test]
fn a_bond_cannot_end_at_an_unknown_node() {
    let strength = BondStrength {
        base_health: s(1.0),
        tension_limit: s(1.0),
        compression_limit: s(1.0),
        shear_limit: s(1.0),
    };
    let mut asset = asset_from_row("###");
    assert_eq!(asset.generate_internal_bonds(strength).unwrap().len(), 2);
    asset.voxel_to_node[1] = Some(SupportNodeId(9));
    assert_eq!(
        asset.generate_internal_bonds(strength).unwrap_err(),
        ValidationError::BondEndpointMissing(SupportNodeId(9))
    );
}

#[test]
fn a_node_listed_twice_is_in_one_part() {
    let mut body = family("###");
    apply_fracture_commands(&mut body, &[hit(1)]);
    let mut actor = body.actor(FxActorId(0)).unwrap().clone();
    let parts = actor_components(&actor, &body);
    assert_eq!(
        parts,
        [vec![SupportNodeId(0), SupportNodeId(1)], vec![SupportNodeId(2)]]
    );
    actor.owned_nodes.push(SupportNodeId(1));
    assert_eq!(actor_components(&actor, &body), parts);
}

#[test]
fn a_second_split_does_nothing() {
    let mut body = family("###");
    apply_fracture_commands(&mut body, &[hit(0), hit(1)]);
    assert_eq!(split_dirty_actors(&mut body).len(), 1);
    let digest = body.deterministic_state_digest();
    assert!(split_dirty_actors(&mut body).is_empty());
    assert_eq!(body.deterministic_state_digest(), digest);
}

#[test]
fn what_breaks_nothing_needs_no_number() {
    let mut body = family("##");
    body.next_event_id = u32::MAX;
    let digest = body.deterministic_state_digest();
    assert!(apply_fracture_commands(&mut body, &[hit(8)]).is_empty());
    assert_eq!(body.deterministic_state_digest(), digest);

    body.next_actor_id = u32::MAX;
    assert!(split_dirty_actors(&mut body).is_empty());
    assert_eq!(body.actors().len(), 1);
}

#[test]
fn the_cap_lets_the_first_commands_through() {
    let body = family("#####");
    let input = StressInput {
        order_key: DeterministicOrderKey::new(1, 1, body.id, FxActorId(0), CommandId(0)),
        actor: FxActorId(0),
        node: SupportNodeId(0),
        force: Vec2::new(s(1000.0), s(0.0)),
        source: DamageSource::Stress,
    };
    let solve = |cap: u16| {
        StressSolver2D::new(StressSettings {
            max_fractures_per_frame: cap,
            ..Default::default()
        })
        .generate_with_profile(&body, &[input.clone()])
    };
    let all = solve(u16::MAX);
    assert!(all.commands.len() > 2);
    for cap in 0..all.commands.len() as u16 + 1 {
        let some = solve(cap);
        assert_eq!(some.commands, all.commands[..cap as usize]);
        assert_eq!(some.profile.generated_commands_before_cap, all.commands.len());
        assert_eq!(some.profile.generated_commands_after_cap, cap as usize);
    }
}

#[test]
fn the_digest_tells_one_number_from_another() {
    let body = family("###");
    let digest = body.deterministic_state_digest();

    let mut other = family("###");
    other.asset.internal_bonds[1].compression_limit = s(11.0);
    assert_ne!(other.deterministic_state_digest(), digest);

    let mut other = family("###");
    other.next_event_id += 1;
    assert_ne!(other.deterministic_state_digest(), digest);

    let mut other = family("###");
    other.next_actor_id += 1;
    assert_ne!(other.deterministic_state_digest(), digest);

    let mut other = family("###");
    other.bond_states[0].accumulated_damage = s(1.0);
    assert_ne!(other.deterministic_state_digest(), digest);

    let mut other = family("###");
    other.node_owner.entries[2].1 = FxActorId(1);
    assert_ne!(other.deterministic_state_digest(), digest);
}
