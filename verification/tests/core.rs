use fracture_core::{
    actor_components, apply_fracture_commands, generate_damage_commands, sort_fracture_commands,
    split_dirty_actors, BondId, BondRuntimeState, Chunk2D, ChunkId, CommandId, ConnectionError,
    ConnectionId, DamageInput, DamageSource, DenseOccupancy, DeterministicOrderKey,
    DynamicConnectionPolicy, DynamicStructuralBondDesc, ExternalBondId, ExternalTarget2D,
    ExternalTargetKind, ExternalTargetToken, FractureCommand, FractureTarget, FxActor, FxActorId,
    FxAsset, FxAssetDesc, FxAssetId, FxFamily, FxFamilyId, GridCoord, NodeRuntimeState, RepairError,
    RepairPlan, Scalar, StaticAnchorDesc, StressContext2D, StressInput, StressSettings,
    StressSolver2D, SupportNodeId, ValidationError, Vec2,
};
use std::collections::{BTreeSet, VecDeque};

/// What the package is built from: the library itself and nothing else. The package has no
/// dependencies and so no manifest of its own; this text stands in its place.
const MANIFEST: &str = "[package]\nname = \"fracture_core\"\nedition = \"2021\"\n";

fn s(value: f32) -> Scalar {
    Scalar::from_bits(value.to_bits())
}

fn component_without_bond(
    actor: &FxActor,
    family: &FxFamily,
    start: SupportNodeId,
    skipped_bond: Option<BondId>,
) -> Vec<SupportNodeId> {
    let owned: BTreeSet<_> = actor.owned_nodes.iter().copied().collect();
    let mut seen = BTreeSet::new();
    let mut queue = VecDeque::from([start]);
    seen.insert(start);
    while let Some(node) = queue.pop_front() {
        let mut next = Vec::new();
        for bond in family.asset().internal_bonds() {
            let whole = family
                .bond_state(bond.id)
                .map_or(false, |state| !state.is_broken());
            if Some(bond.id) != skipped_bond && whole {
                next.extend(bond.other(node));
            }
        }
        for (_, bond) in family.dynamic_structural_bonds() {
            if bond.policy == DynamicConnectionPolicy::GraphOnly && !bond.runtime.is_broken() {
                if bond.node_a == node {
                    next.push(bond.node_b);
                } else if bond.node_b == node {
                    next.push(bond.node_a);
                }
            }
        }
        for other in next {
            if owned.contains(&other) && seen.insert(other) {
                queue.push_back(other);
            }
        }
    }
    seen.into_iter().collect()
}

fn map(width: u32, ids: &[Option<u32>]) -> Vec<Option<SupportNodeId>> {
    assert_eq!(ids.len() % width as usize, 0);
    ids.iter()
        .map(|id| id.map(SupportNodeId))
        .collect::<Vec<_>>()
}

fn asset_from_rows(rows: &[&str], node_ids: &[Option<u32>]) -> FxAsset {
    asset_from_rows_with_limits(rows, node_ids, s(10.0), s(10.0))
}

fn asset_from_rows_with_limits(
    rows: &[&str],
    node_ids: &[Option<u32>],
    tension_limit: Scalar,
    shear_limit: Scalar,
) -> FxAsset {
    let occupancy = DenseOccupancy::from_rows(rows).unwrap();
    let mut desc = FxAssetDesc::new(
        FxAssetId(7),
        s(1.0),
        occupancy.clone(),
        map(occupancy.width(), node_ids),
    );
    desc.default_bond_health = s(10.0);
    desc.default_tension_limit = tension_limit;
    desc.default_shear_limit = shear_limit;
    FxAsset::from_desc(desc).unwrap()
}

fn chain_asset() -> FxAsset {
    asset_from_rows(&["###"], &[Some(0), Some(1), Some(2)])
}

fn family_for(asset: FxAsset) -> FxFamily {
    FxFamily::instantiate(FxFamilyId(3), asset)
}

fn static_anchor_desc(id: u32, node: u32) -> StaticAnchorDesc {
    StaticAnchorDesc {
        id: ExternalBondId(id),
        node: SupportNodeId(node),
        target: ExternalTarget2D {
            kind: ExternalTargetKind::World,
            token: ExternalTargetToken(0),
        },
        anchor: Vec2::new(s(node as f32 + 0.5), s(0.5)),
        normal: Vec2::new(s(1.0), s(0.0)),
        health: s(1.0),
        effective_length: s(1.0),
        tension_limit: s(0.01),
        compression_limit: s(0.01),
        shear_limit: s(0.01),
    }
}

fn dynamic_graph_only_desc(id: u32, node_a: u32, node_b: u32) -> DynamicStructuralBondDesc {
    DynamicStructuralBondDesc {
        id: ConnectionId(id),
        node_a: SupportNodeId(node_a),
        node_b: SupportNodeId(node_b),
        centroid: Vec2::new(s((node_a + node_b) as f32 * 0.5), s(0.5)),
        normal: Vec2::new(s(1.0), s(0.0)),
        health: s(1.0),
        effective_length: s(1.0),
        tension_limit: s(0.01),
        compression_limit: s(0.01),
        shear_limit: s(0.01),
    }
}

fn break_bond_command(
    tick: u64,
    family: FxFamilyId,
    actor: FxActorId,
    bond: BondId,
) -> FractureCommand {
    FractureCommand {
        order_key: DeterministicOrderKey::new(tick, 1, family, actor, CommandId(tick as u32)),
        actor,
        target: FractureTarget::Bond(bond),
        health_loss: s(20.0),
        effective_length_loss: s(20.0),
        source: DamageSource::Script,
    }
}

fn break_external_bond_command(
    tick: u64,
    family: FxFamilyId,
    actor: FxActorId,
    bond: ExternalBondId,
) -> FractureCommand {
    FractureCommand {
        order_key: DeterministicOrderKey::new(tick, 1, family, actor, CommandId(tick as u32)),
        actor,
        target: FractureTarget::ExternalBond(bond),
        health_loss: s(2.0),
        effective_length_loss: s(2.0),
        source: DamageSource::Script,
    }
}

fn disconnected_three_node_asset() -> FxAsset {
    asset_from_rows(&["#.#.#"], &[Some(0), None, Some(1), None, Some(2)])
}

fn repair_plan_from_family(family: &FxFamily) -> RepairPlan {
    RepairPlan {
        asset: family.asset().clone(),
        node_owners: family
            .node_owner
            .entries
            .iter()
            .map(|(node, actor)| (SupportNodeId(*node), *actor))
            .collect(),
        node_states: family
            .node_states()
            .iter()
            .map(|(node, state)| (SupportNodeId(*node), *state))
            .collect(),
        bond_states: family.bond_states().to_vec(),
        dirty_actors: vec![],
    }
}

#[test]
fn exact_cover_basic() {
    let asset = asset_from_rows(&["##", "##"], &[Some(0), Some(0), Some(1), Some(1)]);
    assert_eq!(asset.support_nodes().len(), 2);
    assert_eq!(asset.support_nodes()[0].voxels.len(), 2);
    assert_eq!(asset.support_nodes()[1].voxels.len(), 2);
    assert!(asset.validate().is_ok());
}

#[test]
fn four_neighbor_connectivity() {
    let occupancy = DenseOccupancy::from_rows(&["#.", ".#"]).unwrap();
    let desc = FxAssetDesc::new(
        FxAssetId(1),
        s(1.0),
        occupancy,
        map(2, &[Some(0), None, None, Some(0)]),
    );
    assert!(matches!(
        FxAsset::from_desc(desc),
        Err(ValidationError::SupportNodeNotFourConnected(_))
    ));
}

#[test]
fn bond_generation_edge_scan() {
    let asset = asset_from_rows(&["##", "##"], &[Some(0), Some(1), Some(0), Some(1)]);
    assert_eq!(asset.internal_bonds().len(), 1);
    let bond = &asset.internal_bonds()[0];
    assert_eq!(bond.node_a, SupportNodeId(0));
    assert_eq!(bond.node_b, SupportNodeId(1));
    assert_eq!(bond.interface_edges.len(), 2);
    assert_eq!(bond.length, s(2.0));
}

#[test]
fn chunk_hierarchy_allows_non_leaf_support_exact_cover() {
    let occupancy = DenseOccupancy::from_rows(&["##"]).unwrap();
    let mut desc = FxAssetDesc::new(FxAssetId(1), s(1.0), occupancy, map(2, &[Some(0), Some(1)]));
    desc.authored_chunks = Some(vec![
        Chunk2D {
            id: ChunkId(10),
            support_nodes: vec![],
            parent: Some(ChunkId(20)),
        },
        Chunk2D {
            id: ChunkId(11),
            support_nodes: vec![],
            parent: Some(ChunkId(20)),
        },
        Chunk2D {
            id: ChunkId(20),
            support_nodes: vec![SupportNodeId(0), SupportNodeId(1)],
            parent: None,
        },
    ]);

    let asset = FxAsset::from_desc(desc).unwrap();

    assert_eq!(asset.support_nodes()[0].chunk_id, ChunkId(20));
    assert_eq!(asset.support_nodes()[1].chunk_id, ChunkId(20));
    assert_eq!(asset.chunks().len(), 3);
    assert!(asset.chunk(ChunkId(20)).unwrap().support_nodes.len() == 2);
    assert!(asset.validate().is_ok());
}

#[test]
fn authored_chunk_hierarchy_requires_support_exact_cover() {
    let occupancy = DenseOccupancy::from_rows(&["##"]).unwrap();
    let mut desc = FxAssetDesc::new(FxAssetId(1), s(1.0), occupancy, map(2, &[Some(0), Some(1)]));
    desc.authored_chunks = Some(vec![
        Chunk2D {
            id: ChunkId(10),
            support_nodes: vec![],
            parent: Some(ChunkId(20)),
        },
        Chunk2D {
            id: ChunkId(20),
            support_nodes: vec![SupportNodeId(0)],
            parent: None,
        },
    ]);

    assert_eq!(
        FxAsset::from_desc(desc).unwrap_err(),
        ValidationError::ChunkHierarchyNotExact
    );
}

#[test]
fn chunk_hierarchy_rejects_overlapping_support_ancestors() {
    let occupancy = DenseOccupancy::from_rows(&["##"]).unwrap();
    let mut desc = FxAssetDesc::new(FxAssetId(1), s(1.0), occupancy, map(2, &[Some(0), Some(1)]));
    desc.authored_chunks = Some(vec![
        Chunk2D {
            id: ChunkId(10),
            support_nodes: vec![SupportNodeId(1)],
            parent: Some(ChunkId(20)),
        },
        Chunk2D {
            id: ChunkId(20),
            support_nodes: vec![SupportNodeId(0)],
            parent: None,
        },
    ]);

    assert_eq!(
        FxAsset::from_desc(desc).unwrap_err(),
        ValidationError::ChunkHierarchyNotExact
    );
}

#[test]
fn authored_chunk_hierarchy_rejects_missing_parent() {
    let occupancy = DenseOccupancy::from_rows(&["##"]).unwrap();
    let mut desc = FxAssetDesc::new(FxAssetId(1), s(1.0), occupancy, map(2, &[Some(0), Some(1)]));
    desc.authored_chunks = Some(vec![
        Chunk2D {
            id: ChunkId(10),
            support_nodes: vec![SupportNodeId(0)],
            parent: Some(ChunkId(99)),
        },
        Chunk2D {
            id: ChunkId(11),
            support_nodes: vec![SupportNodeId(1)],
            parent: None,
        },
    ]);

    assert_eq!(
        FxAsset::from_desc(desc).unwrap_err(),
        ValidationError::ChunkParentMissing(ChunkId(99))
    );
}

#[test]
fn authored_chunk_hierarchy_rejects_self_parent() {
    let occupancy = DenseOccupancy::from_rows(&["##"]).unwrap();
    let mut desc = FxAssetDesc::new(FxAssetId(1), s(1.0), occupancy, map(2, &[Some(0), Some(1)]));
    desc.authored_chunks = Some(vec![
        Chunk2D {
            id: ChunkId(10),
            support_nodes: vec![SupportNodeId(0)],
            parent: Some(ChunkId(10)),
        },
        Chunk2D {
            id: ChunkId(11),
            support_nodes: vec![SupportNodeId(1)],
            parent: None,
        },
    ]);

    assert_eq!(
        FxAsset::from_desc(desc).unwrap_err(),
        ValidationError::ChunkParentCycle(ChunkId(10))
    );
}

#[test]
fn authored_chunk_hierarchy_rejects_parent_cycle() {
    let occupancy = DenseOccupancy::from_rows(&["##"]).unwrap();
    let mut desc = FxAssetDesc::new(FxAssetId(1), s(1.0), occupancy, map(2, &[Some(0), Some(1)]));
    desc.authored_chunks = Some(vec![
        Chunk2D {
            id: ChunkId(10),
            support_nodes: vec![SupportNodeId(0)],
            parent: Some(ChunkId(11)),
        },
        Chunk2D {
            id: ChunkId(11),
            support_nodes: vec![SupportNodeId(1)],
            parent: Some(ChunkId(10)),
        },
    ]);

    assert_eq!(
        FxAsset::from_desc(desc).unwrap_err(),
        ValidationError::ChunkParentCycle(ChunkId(10))
    );
}

#[test]
fn disconnected_interface_expands_bonds() {
    let asset = asset_from_rows(
        &["####", "##.#", "####"],
        &[
            Some(0),
            Some(1),
            Some(1),
            Some(1),
            Some(0),
            Some(0),
            None,
            Some(1),
            Some(0),
            Some(1),
            Some(1),
            Some(1),
        ],
    );
    assert_eq!(asset.internal_bonds().len(), 2);
    assert!(asset.internal_bonds().iter().all(|bond| bond.length == s(2.0)));
}

#[test]
fn damage_generate_no_mutation() {
    let family = family_for(chain_asset());
    let before = family.deterministic_state_digest();
    let input = DamageInput {
        order_key: DeterministicOrderKey::new(1, 1, family.id, FxActorId(0), CommandId(0)),
        actor: FxActorId(0),
        target: FractureTarget::Bond(BondId(0)),
        health_loss: s(2.0),
        effective_length_loss: s(0.0),
        source: DamageSource::Script,
        position: Vec2::zero(),
        radius: s(0.0),
    };
    let commands = generate_damage_commands(&family, &[input]);
    assert_eq!(commands.len(), 1);
    assert_eq!(before, family.deterministic_state_digest());
}

#[test]
fn apply_fracture_mutates_health() {
    let mut family = family_for(chain_asset());
    let command = FractureCommand {
        order_key: DeterministicOrderKey::new(1, 1, family.id, FxActorId(0), CommandId(0)),
        actor: FxActorId(0),
        target: FractureTarget::Bond(BondId(0)),
        health_loss: s(4.0),
        effective_length_loss: s(0.5),
        source: DamageSource::Script,
    };
    let events = apply_fracture_commands(&mut family, &[command]);
    assert_eq!(events.len(), 1);
    assert_eq!(events[0].old_health, s(10.0));
    assert_eq!(events[0].new_health, s(6.0));
    assert_eq!(family.bond_state(BondId(0)).unwrap().health, s(6.0));
    assert!(family.is_dirty(FxActorId(0)));
}

#[test]
fn stress_tension_break() {
    let family = family_for(asset_from_rows(&["##"], &[Some(0), Some(1)]));
    let solver = StressSolver2D::new(StressSettings {
        damage_per_overload: s(10.0),
        ..Default::default()
    });
    let input = StressInput {
        order_key: DeterministicOrderKey::new(1, 1, family.id, FxActorId(0), CommandId(0)),
        actor: FxActorId(0),
        node: SupportNodeId(0),
        force: Vec2::new(s(20.0), s(0.0)),
        source: DamageSource::Stress,
    };
    let commands = solver.generate(&family, &[input]);
    assert_eq!(commands.len(), 1);
    assert_eq!(commands[0].target, FractureTarget::Bond(BondId(0)));
}

#[test]
fn stress_shear_break() {
    let family = family_for(asset_from_rows(&["##"], &[Some(0), Some(1)]));
    let solver = StressSolver2D::new(StressSettings {
        damage_per_overload: s(10.0),
        ..Default::default()
    });
    let input = StressInput {
        order_key: DeterministicOrderKey::new(1, 1, family.id, FxActorId(0), CommandId(0)),
        actor: FxActorId(0),
        node: SupportNodeId(0),
        force: Vec2::new(s(0.0), s(20.0)),
        source: DamageSource::Stress,
    };
    let commands = solver.generate(&family, &[input]);
    assert_eq!(commands.len(), 1);
    assert_eq!(commands[0].target, FractureTarget::Bond(BondId(0)));
}

#[test]
fn stress_tension_break_from_node_b() {
    let family = family_for(asset_from_rows(&["##"], &[Some(0), Some(1)]));
    let solver = StressSolver2D::new(StressSettings {
        damage_per_overload: s(10.0),
        ..Default::default()
    });
    let input = StressInput {
        order_key: DeterministicOrderKey::new(1, 1, family.id, FxActorId(0), CommandId(0)),
        actor: FxActorId(0),
        node: SupportNodeId(1),
        force: Vec2::new(s(-20.0), s(0.0)),
        source: DamageSource::Stress,
    };
    let commands = solver.generate(&family, &[input]);
    assert_eq!(commands.len(), 1);
    assert_eq!(commands[0].target, FractureTarget::Bond(BondId(0)));
}

#[test]
fn stress_shear_break_from_node_b() {
    let family = family_for(asset_from_rows(&["##"], &[Some(0), Some(1)]));
    let solver = StressSolver2D::new(StressSettings {
        damage_per_overload: s(10.0),
        ..Default::default()
    });
    let input = StressInput {
        order_key: DeterministicOrderKey::new(1, 1, family.id, FxActorId(0), CommandId(0)),
        actor: FxActorId(0),
        node: SupportNodeId(1),
        force: Vec2::new(s(0.0), s(-20.0)),
        source: DamageSource::Stress,
    };
    let commands = solver.generate(&family, &[input]);
    assert_eq!(commands.len(), 1);
    assert_eq!(commands[0].target, FractureTarget::Bond(BondId(0)));
}

#[test]
fn stress_compression_does_not_break_from_node_a() {
    let family = family_for(asset_from_rows(&["##"], &[Some(0), Some(1)]));
    let solver = StressSolver2D::new(StressSettings {
        damage_per_overload: s(10.0),
        ..Default::default()
    });
    let input = StressInput {
        order_key: DeterministicOrderKey::new(1, 1, family.id, FxActorId(0), CommandId(0)),
        actor: FxActorId(0),
        node: SupportNodeId(0),
        force: Vec2::new(s(-20.0), s(0.0)),
        source: DamageSource::Stress,
    };
    let commands = solver.generate(&family, &[input]);
    assert!(commands.is_empty());
}

#[test]
fn stress_compression_does_not_break_from_node_b() {
    let family = family_for(asset_from_rows(&["##"], &[Some(0), Some(1)]));
    let solver = StressSolver2D::new(StressSettings {
        damage_per_overload: s(10.0),
        ..Default::default()
    });
    let input = StressInput {
        order_key: DeterministicOrderKey::new(1, 1, family.id, FxActorId(0), CommandId(0)),
        actor: FxActorId(0),
        node: SupportNodeId(1),
        force: Vec2::new(s(20.0), s(0.0)),
        source: DamageSource::Stress,
    };
    let commands = solver.generate(&family, &[input]);
    assert!(commands.is_empty());
}

#[test]
fn stress_mixed_two_sided_modes_use_mode_wise_limits() {
    let family = family_for(asset_from_rows_with_limits(
        &["##"],
        &[Some(0), Some(1)],
        s(10.0),
        s(100.0),
    ));
    let solver = StressSolver2D::new(StressSettings {
        damage_per_overload: s(10.0),
        ..Default::default()
    });
    let commands = solver.generate(
        &family,
        &[
            StressInput {
                order_key: DeterministicOrderKey::new(
                    1,
                    1,
                    family.id,
                    FxActorId(0),
                    CommandId(0),
                ),
                actor: FxActorId(0),
                node: SupportNodeId(0),
                force: Vec2::new(s(20.0), s(0.0)),
                source: DamageSource::Stress,
            },
            StressInput {
                order_key: DeterministicOrderKey::new(
                    1,
                    1,
                    family.id,
                    FxActorId(0),
                    CommandId(1),
                ),
                actor: FxActorId(0),
                node: SupportNodeId(1),
                force: Vec2::new(s(0.0), s(50.0)),
                source: DamageSource::Stress,
            },
        ],
    );
    assert_eq!(commands.len(), 1);
    assert_eq!(commands[0].target, FractureTarget::Bond(BondId(0)));
    assert_eq!(commands[0].effective_length_loss, s(1.0));
}

#[test]
fn impact_breaks_weak_place() {
    let mut family = family_for(asset_from_rows_with_limits(
        &["###"],
        &[Some(0), Some(1), Some(2)],
        s(100.0),
        s(100.0),
    ));
    let weaken = FractureCommand {
        order_key: DeterministicOrderKey::new(0, 1, family.id, FxActorId(0), CommandId(0)),
        actor: FxActorId(0),
        target: FractureTarget::Bond(BondId(1)),
        health_loss: s(9.5),
        effective_length_loss: s(0.0),
        source: DamageSource::Script,
    };
    apply_fracture_commands(&mut family, &[weaken]);
    let solver = StressSolver2D::new(StressSettings {
        damage_per_overload: s(10.0),
        ..Default::default()
    });
    let input = StressInput {
        order_key: DeterministicOrderKey::new(1, 1, family.id, FxActorId(0), CommandId(0)),
        actor: FxActorId(0),
        node: SupportNodeId(0),
        force: Vec2::new(s(10.0), s(0.0)),
        source: DamageSource::ContactImpulse,
    };
    let commands = solver.generate(&family, &[input]);
    assert_eq!(commands.len(), 1);
    assert_eq!(commands[0].target, FractureTarget::Bond(BondId(1)));
}

#[test]
fn impact_breaks_weak_place_from_other_side() {
    let mut family = family_for(asset_from_rows_with_limits(
        &["###"],
        &[Some(0), Some(1), Some(2)],
        s(100.0),
        s(100.0),
    ));
    let weaken = FractureCommand {
        order_key: DeterministicOrderKey::new(0, 1, family.id, FxActorId(0), CommandId(0)),
        actor: FxActorId(0),
        target: FractureTarget::Bond(BondId(1)),
        health_loss: s(9.5),
        effective_length_loss: s(0.0),
        source: DamageSource::Script,
    };
    apply_fracture_commands(&mut family, &[weaken]);
    let solver = StressSolver2D::new(StressSettings {
        damage_per_overload: s(10.0),
        ..Default::default()
    });
    let input = StressInput {
        order_key: DeterministicOrderKey::new(1, 1, family.id, FxActorId(0), CommandId(0)),
        actor: FxActorId(0),
        node: SupportNodeId(2),
        force: Vec2::new(s(-10.0), s(0.0)),
        source: DamageSource::ContactImpulse,
    };
    let commands = solver.generate(&family, &[input]);
    assert_eq!(commands.len(), 1);
    assert_eq!(commands[0].target, FractureTarget::Bond(BondId(1)));
}

#[test]
fn largest_fragment_keeps_parent() {
    let mut family = family_for(chain_asset());
    let command = FractureCommand {
        order_key: DeterministicOrderKey::new(1, 1, family.id, FxActorId(0), CommandId(0)),
        actor: FxActorId(0),
        target: FractureTarget::Bond(BondId(1)),
        health_loss: s(10.0),
        effective_length_loss: s(1.0),
        source: DamageSource::Script,
    };
    apply_fracture_commands(&mut family, &[command]);
    let events = split_dirty_actors(&mut family);
    assert_eq!(events.len(), 1);
    assert_eq!(events[0].kept_actor, FxActorId(0));
    assert_eq!(
        family.actor(FxActorId(0)).unwrap().owned_nodes,
        vec![SupportNodeId(0), SupportNodeId(1)]
    );
    assert_eq!(
        family.actor(FxActorId(1)).unwrap().owned_nodes,
        vec![SupportNodeId(2)]
    );
}

#[test]
fn lib_deterministic_sort_commands() {
    let family_id = FxFamilyId(1);
    let actor = FxActorId(0);
    let mut commands = vec![
        FractureCommand {
            order_key: DeterministicOrderKey::new(2, 1, family_id, actor, CommandId(3)),
            actor,
            target: FractureTarget::Bond(BondId(2)),
            health_loss: s(1.0),
            effective_length_loss: s(0.0),
            source: DamageSource::Script,
        },
        FractureCommand {
            order_key: DeterministicOrderKey::new(1, 1, family_id, actor, CommandId(1)),
            actor,
            target: FractureTarget::Bond(BondId(1)),
            health_loss: s(1.0),
            effective_length_loss: s(0.0),
            source: DamageSource::Script,
        },
        FractureCommand {
            order_key: DeterministicOrderKey::new(1, 1, family_id, actor, CommandId(0)),
            actor,
            target: FractureTarget::Bond(BondId(0)),
            health_loss: s(1.0),
            effective_length_loss: s(0.0),
            source: DamageSource::Script,
        },
    ];
    sort_fracture_commands(&mut commands);
    assert_eq!(
        commands.iter().map(|cmd| cmd.target).collect::<Vec<_>>(),
        vec![
            FractureTarget::Bond(BondId(0)),
            FractureTarget::Bond(BondId(1)),
            FractureTarget::Bond(BondId(2)),
        ]
    );
}

/// This looks at the text above, not at a file: a line for an engine would have to be added there.
#[test]
fn core_has_no_rapier_dependency() {
    let manifest = MANIFEST;
    assert!(!manifest.contains("rapier2d"));
    assert!(!manifest.contains("rapier3d"));
    assert!(!manifest.contains("parry2d"));
    assert!(!manifest.contains("parry3d"));
}

#[test]
fn deterministic_state_digest_stable() {
    let mut a = family_for(chain_asset());
    let mut b = family_for(chain_asset());
    let command = FractureCommand {
        order_key: DeterministicOrderKey::new(1, 1, a.id, FxActorId(0), CommandId(0)),
        actor: FxActorId(0),
        target: FractureTarget::Bond(BondId(1)),
        health_loss: s(10.0),
        effective_length_loss: s(1.0),
        source: DamageSource::Script,
    };
    apply_fracture_commands(&mut a, &[command.clone()]);
    apply_fracture_commands(&mut b, &[command]);
    split_dirty_actors(&mut a);
    split_dirty_actors(&mut b);
    assert_eq!(
        a.deterministic_state_digest(),
        b.deterministic_state_digest()
    );
}

#[test]
fn apply_repair_plan_preserves_actor_order() {
    let mut family = family_for(asset_from_rows(&["#.#"], &[Some(0), None, Some(1)]));
    let asset = family.asset().clone();
    let bond_states = asset
        .internal_bonds()
        .iter()
        .map(|bond| BondRuntimeState {
            health: bond.base_health,
            effective_length: bond.length,
            accumulated_damage: s(0.0),
        })
        .collect();
    let plan = RepairPlan {
        asset,
        node_owners: vec![
            (SupportNodeId(1), FxActorId(1)),
            (SupportNodeId(0), FxActorId(0)),
        ],
        node_states: vec![
            (
                SupportNodeId(0),
                NodeRuntimeState {
                    health: s(1.0),
                    accumulated_damage: s(0.0),
                },
            ),
            (
                SupportNodeId(1),
                NodeRuntimeState {
                    health: s(1.0),
                    accumulated_damage: s(0.0),
                },
            ),
        ],
        bond_states,
        dirty_actors: vec![FxActorId(1), FxActorId(0)],
    };
    let summary = family.apply_repair_plan(plan).unwrap();
    assert_eq!(summary.actor_order, vec![FxActorId(0), FxActorId(1)]);
    assert_eq!(summary.dirty_actors, vec![FxActorId(0), FxActorId(1)]);
}

#[test]
fn apply_repair_plan_rejects_missing_node_owner() {
    let mut family = family_for(asset_from_rows(&["##"], &[Some(0), Some(1)]));
    let asset = family.asset().clone();
    let bond_states = asset
        .internal_bonds()
        .iter()
        .map(|bond| BondRuntimeState {
            health: bond.base_health,
            effective_length: bond.length,
            accumulated_damage: s(0.0),
        })
        .collect();
    let err = family
        .apply_repair_plan(RepairPlan {
            asset,
            node_owners: vec![(SupportNodeId(0), FxActorId(0))],
            node_states: vec![
                (
                    SupportNodeId(0),
                    NodeRuntimeState {
                        health: s(1.0),
                        accumulated_damage: s(0.0),
                    },
                ),
                (
                    SupportNodeId(1),
                    NodeRuntimeState {
                        health: s(1.0),
                        accumulated_damage: s(0.0),
                    },
                ),
            ],
            bond_states,
            dirty_actors: vec![],
        })
        .unwrap_err();
    assert_eq!(err, RepairError::MissingNodeOwner(SupportNodeId(1)));
}

#[test]
fn apply_repair_plan_rejects_invalid_node_runtime_state() {
    let mut family = family_for(asset_from_rows(&["#"], &[Some(0)]));
    let mut plan = repair_plan_from_family(&family);
    plan.node_states[0].1.health = s(f32::NAN);
    let err = family.apply_repair_plan(plan).unwrap_err();
    assert_eq!(err, RepairError::InvalidNodeState(SupportNodeId(0)));
}

#[test]
fn apply_repair_plan_rejects_invalid_bond_runtime_state() {
    let mut family = family_for(asset_from_rows(&["##"], &[Some(0), Some(1)]));
    let mut plan = repair_plan_from_family(&family);
    plan.bond_states[0].effective_length = s(-1.0);
    let err = family.apply_repair_plan(plan).unwrap_err();
    assert_eq!(err, RepairError::InvalidBondState(BondId(0)));
}

#[test]
fn apply_repair_plan_rejects_unknown_dirty_actor() {
    let mut family = family_for(asset_from_rows(&["#"], &[Some(0)]));
    let mut plan = repair_plan_from_family(&family);
    plan.dirty_actors = vec![FxActorId(99)];
    let err = family.apply_repair_plan(plan).unwrap_err();
    assert_eq!(err, RepairError::UnknownDirtyActor(FxActorId(99)));
}

#[test]
fn apply_repair_plan_rejects_old_only_dirty_actor() {
    let mut family = family_for(asset_from_rows(&["#.#"], &[Some(0), None, Some(1)]));
    let plan = RepairPlan {
        asset: asset_from_rows(&["#"], &[Some(0)]),
        node_owners: vec![(SupportNodeId(0), FxActorId(0))],
        node_states: vec![(
            SupportNodeId(0),
            family.node_state(SupportNodeId(0)).unwrap().clone(),
        )],
        bond_states: vec![],
        dirty_actors: vec![FxActorId(1)],
    };
    let err = family.apply_repair_plan(plan).unwrap_err();
    assert_eq!(err, RepairError::UnknownDirtyActor(FxActorId(1)));
}

#[test]
fn apply_repair_plan_rejects_changed_actor_not_dirty() {
    let mut family = family_for(asset_from_rows(&["#.#"], &[Some(0), None, Some(1)]));
    let mut plan = repair_plan_from_family(&family);
    plan.node_owners = vec![
        (SupportNodeId(0), FxActorId(0)),
        (SupportNodeId(1), FxActorId(0)),
    ];
    let err = family.apply_repair_plan(plan).unwrap_err();
    assert_eq!(err, RepairError::ActorChangedNotDirty(FxActorId(0)));
}

#[test]
fn apply_repair_plan_rejects_disconnected_actor_not_dirty() {
    let mut family = family_for(asset_from_rows(&["###"], &[Some(0), Some(1), Some(2)]));
    let mut plan = repair_plan_from_family(&family);
    plan.bond_states[1].health = s(0.0);
    let err = family.apply_repair_plan(plan).unwrap_err();
    assert_eq!(err, RepairError::DisconnectedActorNotDirty(FxActorId(0)));
}

#[test]
fn apply_repair_plan_digest_changes_on_asset_overlay() {
    let mut family = family_for(asset_from_rows(&["##"], &[Some(0), Some(1)]));
    let before = family.deterministic_state_digest();
    let asset = asset_from_rows(&["#"], &[Some(0)]);
    let plan = RepairPlan {
        bond_states: vec![],
        node_owners: vec![(SupportNodeId(0), FxActorId(0))],
        node_states: vec![(
            SupportNodeId(0),
            NodeRuntimeState {
                health: s(1.0),
                accumulated_damage: s(0.0),
            },
        )],
        asset,
        dirty_actors: vec![FxActorId(0)],
    };
    family.apply_repair_plan(plan).unwrap();
    assert_ne!(before, family.deterministic_state_digest());
}

#[test]
fn node_health_damage_and_repair_transfer() {
    let mut family = family_for(asset_from_rows(&["##"], &[Some(0), Some(1)]));
    let command = FractureCommand {
        order_key: DeterministicOrderKey::new(1, 1, family.id, FxActorId(0), CommandId(0)),
        actor: FxActorId(0),
        target: FractureTarget::Node(SupportNodeId(0)),
        health_loss: s(0.25),
        effective_length_loss: s(0.0),
        source: DamageSource::Script,
    };
    apply_fracture_commands(&mut family, &[command]);
    assert_eq!(family.node_state(SupportNodeId(0)).unwrap().health, s(0.75));
    let asset = family.asset().clone();
    let plan = RepairPlan {
        asset: asset.clone(),
        node_owners: vec![
            (SupportNodeId(0), FxActorId(0)),
            (SupportNodeId(1), FxActorId(0)),
        ],
        node_states: vec![
            (
                SupportNodeId(0),
                family.node_state(SupportNodeId(0)).unwrap().clone(),
            ),
            (
                SupportNodeId(1),
                family.node_state(SupportNodeId(1)).unwrap().clone(),
            ),
        ],
        bond_states: family.bond_states().to_vec(),
        dirty_actors: vec![FxActorId(0)],
    };
    family.apply_repair_plan(plan).unwrap();
    assert_eq!(family.node_state(SupportNodeId(0)).unwrap().health, s(0.75));
}

#[test]
fn repair_plan_marks_dirty_actors_for_split() {
    let mut family = family_for(asset_from_rows(&["##"], &[Some(0), Some(1)]));
    let asset = family.asset().clone();
    let plan = RepairPlan {
        asset,
        node_owners: vec![
            (SupportNodeId(0), FxActorId(0)),
            (SupportNodeId(1), FxActorId(0)),
        ],
        node_states: family
            .node_states()
            .iter()
            .map(|(node, state)| (SupportNodeId(*node), *state))
            .collect(),
        bond_states: family.bond_states().to_vec(),
        dirty_actors: vec![FxActorId(0)],
    };
    family.apply_repair_plan(plan).unwrap();
    assert!(family.is_dirty(FxActorId(0)));
}

#[test]
fn split_single_island_noop() {
    let mut family = family_for(chain_asset());
    family.dirty_actors.insert(0);
    let events = split_dirty_actors(&mut family);
    assert!(events.is_empty());
    assert_eq!(family.actor_count(), 1);
}

#[test]
fn largest_fragment_tie_breaks_by_min_node_id() {
    let mut family = family_for(asset_from_rows(&["###"], &[Some(0), Some(1), Some(2)]));
    let commands = vec![
        FractureCommand {
            order_key: DeterministicOrderKey::new(1, 1, family.id, FxActorId(0), CommandId(0)),
            actor: FxActorId(0),
            target: FractureTarget::Bond(BondId(0)),
            health_loss: s(10.0),
            effective_length_loss: s(1.0),
            source: DamageSource::Script,
        },
        FractureCommand {
            order_key: DeterministicOrderKey::new(1, 1, family.id, FxActorId(0), CommandId(1)),
            actor: FxActorId(0),
            target: FractureTarget::Bond(BondId(1)),
            health_loss: s(10.0),
            effective_length_loss: s(1.0),
            source: DamageSource::Script,
        },
    ];
    apply_fracture_commands(&mut family, &commands);
    let events = split_dirty_actors(&mut family);
    assert_eq!(events.len(), 1);
    assert_eq!(
        family.actor(FxActorId(0)).unwrap().owned_nodes,
        vec![SupportNodeId(0)]
    );
}

#[test]
fn split_child_ids_are_stable() {
    let run = || {
        let mut family = family_for(asset_from_rows(&["###"], &[Some(0), Some(1), Some(2)]));
        let commands = vec![
            FractureCommand {
                order_key: DeterministicOrderKey::new(
                    1,
                    1,
                    family.id,
                    FxActorId(0),
                    CommandId(0),
                ),
                actor: FxActorId(0),
                target: FractureTarget::Bond(BondId(0)),
                health_loss: s(10.0),
                effective_length_loss: s(1.0),
                source: DamageSource::Script,
            },
            FractureCommand {
                order_key: DeterministicOrderKey::new(
                    1,
                    1,
                    family.id,
                    FxActorId(0),
                    CommandId(1),
                ),
                actor: FxActorId(0),
                target: FractureTarget::Bond(BondId(1)),
                health_loss: s(10.0),
                effective_length_loss: s(1.0),
                source: DamageSource::Script,
            },
        ];
        apply_fracture_commands(&mut family, &commands);
        split_dirty_actors(&mut family);
        family
            .actors()
            .iter()
            .map(|(actor_id, _)| *actor_id)
            .collect::<Vec<_>>()
    };
    assert_eq!(run(), run());
}

#[test]
fn stress_generate_commands_no_direct_mutation() {
    let family = family_for(asset_from_rows(&["##"], &[Some(0), Some(1)]));
    let before = family.deterministic_state_digest();
    let solver = StressSolver2D::new(Default::default());
    let input = StressInput {
        order_key: DeterministicOrderKey::new(1, 1, family.id, FxActorId(0), CommandId(0)),
        actor: FxActorId(0),
        node: SupportNodeId(0),
        force: Vec2::new(s(20.0), s(0.0)),
        source: DamageSource::Stress,
    };
    assert_eq!(solver.generate(&family, &[input]).len(), 1);
    assert_eq!(before, family.deterministic_state_digest());
}

#[test]
fn stress_generate_with_profile_reports_deterministic_counters() {
    let family = family_for(asset_from_rows(&["##"], &[Some(0), Some(1)]));
    let solver = StressSolver2D::new(StressSettings {
        max_fractures_per_frame: 1,
        ..Default::default()
    });
    let input = StressInput {
        order_key: DeterministicOrderKey::new(1, 1, family.id, FxActorId(0), CommandId(0)),
        actor: FxActorId(0),
        node: SupportNodeId(0),
        force: Vec2::new(s(20.0), s(0.0)),
        source: DamageSource::Stress,
    };

    let report = solver.generate_with_profile(&family, &[input.clone()]);

    assert_eq!(report.commands.len(), 1);
    assert_eq!(report.profile.input_count, 1);
    assert_eq!(report.profile.actor_count_visited, 1);
    assert_eq!(report.profile.actors_with_input, 1);
    assert_eq!(report.profile.internal_bond_candidates, 1);
    assert_eq!(report.profile.internal_bonds_tested, 1);
    assert_eq!(report.profile.external_bond_candidates, 0);
    assert_eq!(report.profile.external_bonds_tested, 0);
    assert_eq!(report.profile.dynamic_structural_bonds_tested, 0);
    assert_eq!(report.profile.generated_commands_before_cap, 1);
    assert_eq!(report.profile.generated_commands_after_cap, 1);
    assert_eq!(report.profile.frame_cap, 1);
    assert_eq!(
        solver.generate(&family, &[input]).len(),
        report.commands.len()
    );
}

#[test]
fn stress_max_iterations_affects_long_path_propagation() {
    let family = family_for(asset_from_rows(
        &["####"],
        &[Some(0), Some(1), Some(2), Some(3)],
    ));
    let input = StressInput {
        order_key: DeterministicOrderKey::new(1, 1, family.id, FxActorId(0), CommandId(0)),
        actor: FxActorId(0),
        node: SupportNodeId(0),
        force: Vec2::new(s(20.0), s(0.0)),
        source: DamageSource::Stress,
    };

    let one_iteration = StressSolver2D::new(StressSettings {
        max_iterations: 1,
        damage_per_overload: s(10.0),
        ..Default::default()
    })
    .generate(&family, &[input.clone()]);
    let three_iterations = StressSolver2D::new(StressSettings {
        max_iterations: 3,
        damage_per_overload: s(10.0),
        ..Default::default()
    })
    .generate(&family, &[input]);

    assert_eq!(one_iteration.len(), 1);
    assert_eq!(one_iteration[0].target, FractureTarget::Bond(BondId(0)));
    assert!(three_iterations.len() >= 3);
    assert!(
        three_iterations
            .iter()
            .any(|command| command.target == FractureTarget::Bond(BondId(2)))
    );
}

#[test]
fn stress_cycle_no_iteration_amplification() {
    let family = family_for(asset_from_rows_with_limits(
        &["##", "##"],
        &[Some(0), Some(1), Some(2), Some(3)],
        s(7.5),
        s(7.5),
    ));
    let input = StressInput {
        order_key: DeterministicOrderKey::new(1, 1, family.id, FxActorId(0), CommandId(0)),
        actor: FxActorId(0),
        node: SupportNodeId(0),
        force: Vec2::new(s(20.0), s(0.0)),
        source: DamageSource::Stress,
    };
    let shallow = StressSolver2D::new(StressSettings {
        max_iterations: 4,
        damage_per_overload: s(10.0),
        ..Default::default()
    })
    .generate(&family, &[input.clone()]);
    let deep = StressSolver2D::new(StressSettings {
        max_iterations: 32,
        damage_per_overload: s(10.0),
        ..Default::default()
    })
    .generate(&family, &[input]);

    assert_eq!(deep, shallow);
}

#[test]
fn stress_branch_force_not_duplicated() {
    let family = family_for(asset_from_rows_with_limits(
        &["###"],
        &[Some(0), Some(1), Some(2)],
        s(15.0),
        s(15.0),
    ));
    let input = StressInput {
        order_key: DeterministicOrderKey::new(1, 1, family.id, FxActorId(0), CommandId(0)),
        actor: FxActorId(0),
        node: SupportNodeId(1),
        force: Vec2::new(s(20.0), s(0.0)),
        source: DamageSource::Stress,
    };

    let commands = StressSolver2D::new(StressSettings {
        max_iterations: 8,
        damage_per_overload: s(10.0),
        ..Default::default()
    })
    .generate(&family, &[input]);

    assert!(
        commands.is_empty(),
        "the 20N load must be split across the two branch bonds, not copied into both"
    );
}

#[test]
fn stress_max_iterations_converges_not_overloads() {
    let mut family = family_for(asset_from_rows_with_limits(
        &["##"],
        &[Some(0), Some(1)],
        s(100.0),
        s(100.0),
    ));
    let mut anchor = static_anchor_desc(7, 0);
    anchor.tension_limit = s(2.0);
    anchor.shear_limit = s(2.0);
    family.connect_static_anchor(anchor).unwrap();
    let input = StressInput {
        order_key: DeterministicOrderKey::new(1, 1, family.id, FxActorId(0), CommandId(0)),
        actor: FxActorId(0),
        node: SupportNodeId(1),
        force: Vec2::new(s(1.0), s(0.0)),
        source: DamageSource::Stress,
    };
    let early = StressSolver2D::new(StressSettings {
        max_iterations: 2,
        damage_per_overload: s(10.0),
        ..Default::default()
    })
    .generate(&family, &[input.clone()]);
    let converged = StressSolver2D::new(StressSettings {
        max_iterations: 32,
        damage_per_overload: s(10.0),
        ..Default::default()
    })
    .generate(&family, &[input]);

    assert!(early.is_empty());
    assert!(
        converged.is_empty(),
        "extra iterations must converge rather than repeatedly add the same path load"
    );
}

#[test]
fn stress_gravity_remote_mass_loads_static_anchor() {
    let mut family = family_for(asset_from_rows_with_limits(
        &["##"],
        &[Some(0), Some(1)],
        s(100.0),
        s(100.0),
    ));
    let anchor = family
        .connect_static_anchor(static_anchor_desc(7, 0))
        .unwrap();
    let mut context = StressContext2D::from_family(&family);
    context.gravity = Vec2::new(s(0.0), s(-1.0));
    context.fallback_order_keys = vec![(
        FxActorId(0),
        DeterministicOrderKey::new(1, 30, family.id, FxActorId(0), CommandId(0)),
    )];

    let commands = StressSolver2D::new(StressSettings {
        max_iterations: 32,
        damage_per_overload: s(1.0),
        ..Default::default()
    })
    .generate_with_context(&family, &context, &[]);

    assert_eq!(commands.len(), 1);
    assert_eq!(commands[0].target, FractureTarget::ExternalBond(anchor));

    apply_fracture_commands(&mut family, &commands);
    let mut broken_context = StressContext2D::from_family(&family);
    broken_context.gravity = Vec2::new(s(0.0), s(-1.0));
    broken_context.fallback_order_keys = vec![(
        FxActorId(0),
        DeterministicOrderKey::new(2, 30, family.id, FxActorId(0), CommandId(0)),
    )];
    assert!(
        StressSolver2D::new(StressSettings {
            max_iterations: 32,
            damage_per_overload: s(1.0),
            ..Default::default()
        })
        .generate_with_context(&family, &broken_context, &[])
        .is_empty(),
        "a broken external bond must stop acting as a fixed endpoint"
    );
}

#[test]
fn stress_remote_contact_loads_static_anchor() {
    let mut family = family_for(asset_from_rows_with_limits(
        &["##"],
        &[Some(0), Some(1)],
        s(100.0),
        s(100.0),
    ));
    let anchor = family
        .connect_static_anchor(static_anchor_desc(7, 0))
        .unwrap();
    let input = StressInput {
        order_key: DeterministicOrderKey::new(1, 1, family.id, FxActorId(0), CommandId(0)),
        actor: FxActorId(0),
        node: SupportNodeId(1),
        force: Vec2::new(s(0.0), s(-1.0)),
        source: DamageSource::ContactImpulse,
    };

    let commands = StressSolver2D::new(StressSettings {
        max_iterations: 32,
        damage_per_overload: s(1.0),
        ..Default::default()
    })
    .generate(&family, &[input]);

    assert_eq!(commands.len(), 1);
    assert_eq!(commands[0].target, FractureTarget::ExternalBond(anchor));
    assert_eq!(commands[0].source, DamageSource::ContactImpulse);
}

#[test]
fn stress_convergence_epsilon_can_stop_propagation() {
    let family = family_for(asset_from_rows(&["##"], &[Some(0), Some(1)]));
    let solver = StressSolver2D::new(StressSettings {
        convergence_epsilon: s(25.0),
        damage_per_overload: s(10.0),
        ..Default::default()
    });
    let input = StressInput {
        order_key: DeterministicOrderKey::new(1, 1, family.id, FxActorId(0), CommandId(0)),
        actor: FxActorId(0),
        node: SupportNodeId(0),
        force: Vec2::new(s(20.0), s(0.0)),
        source: DamageSource::Stress,
    };

    assert!(solver.generate(&family, &[input]).is_empty());
}

#[test]
fn stress_gravity_context_static_anchor_generates_external_command() {
    let mut family = family_for(asset_from_rows(&["#"], &[Some(0)]));
    let anchor = family
        .connect_static_anchor(static_anchor_desc(7, 0))
        .unwrap();
    let mut context = StressContext2D::from_family(&family);
    context.gravity = Vec2::new(s(0.0), s(-1.0));
    context.fallback_order_keys = vec![(
        FxActorId(0),
        DeterministicOrderKey::new(1, 30, family.id, FxActorId(0), CommandId(0)),
    )];

    let commands = StressSolver2D::new(StressSettings {
        damage_per_overload: s(1.0),
        max_iterations: 1,
        ..Default::default()
    })
    .generate_with_context(&family, &context, &[]);

    assert_eq!(commands.len(), 1);
    assert_eq!(commands[0].target, FractureTarget::ExternalBond(anchor));
}

#[test]
fn stress_broken_fixed_endpoint_no_longer_participates() {
    let mut family = family_for(asset_from_rows(&["#"], &[Some(0)]));
    let anchor = family
        .connect_static_anchor(static_anchor_desc(7, 0))
        .unwrap();
    let family_id = family.id;
    apply_fracture_commands(
        &mut family,
        &[FractureCommand {
            order_key: DeterministicOrderKey::new(0, 1, family_id, FxActorId(0), CommandId(0)),
            actor: FxActorId(0),
            target: FractureTarget::ExternalBond(anchor),
            health_loss: s(1.0),
            effective_length_loss: s(1.0),
            source: DamageSource::Script,
        }],
    );
    let mut context = StressContext2D::from_family(&family);
    context.gravity = Vec2::new(s(0.0), s(-1.0));
    context.fallback_order_keys = vec![(
        FxActorId(0),
        DeterministicOrderKey::new(1, 30, family.id, FxActorId(0), CommandId(0)),
    )];

    let commands = StressSolver2D::new(StressSettings {
        damage_per_overload: s(1.0),
        max_iterations: 1,
        ..Default::default()
    })
    .generate_with_context(&family, &context, &[]);

    assert!(commands.is_empty());
}

#[test]
fn deterministic_stress_shuffled_inputs_and_context_order_match() {
    let family = family_for(asset_from_rows(&["###"], &[Some(0), Some(1), Some(2)]));
    let solver = StressSolver2D::new(StressSettings {
        damage_per_overload: s(10.0),
        max_iterations: 3,
        ..Default::default()
    });
    let inputs = vec![
        StressInput {
            order_key: DeterministicOrderKey::new(1, 1, family.id, FxActorId(0), CommandId(1)),
            actor: FxActorId(0),
            node: SupportNodeId(2),
            force: Vec2::new(s(-20.0), s(0.0)),
            source: DamageSource::Stress,
        },
        StressInput {
            order_key: DeterministicOrderKey::new(1, 1, family.id, FxActorId(0), CommandId(0)),
            actor: FxActorId(0),
            node: SupportNodeId(0),
            force: Vec2::new(s(20.0), s(0.0)),
            source: DamageSource::Stress,
        },
    ];
    let context = StressContext2D::from_family(&family);
    let mut shuffled_inputs = inputs.clone();
    shuffled_inputs.reverse();
    let mut shuffled_context = context.clone();
    shuffled_context.nodes.reverse();

    assert_eq!(
        solver.generate_with_context(&family, &context, &inputs),
        solver.generate_with_context(&family, &shuffled_context, &shuffled_inputs)
    );
}

#[test]
fn deterministic_component_order_independent_of_adjacency() {
    let mut family = family_for(asset_from_rows(&["###"], &[Some(0), Some(1), Some(2)]));
    let commands = vec![
        FractureCommand {
            order_key: DeterministicOrderKey::new(1, 1, family.id, FxActorId(0), CommandId(1)),
            actor: FxActorId(0),
            target: FractureTarget::Bond(BondId(1)),
            health_loss: s(10.0),
            effective_length_loss: s(1.0),
            source: DamageSource::Script,
        },
        FractureCommand {
            order_key: DeterministicOrderKey::new(1, 1, family.id, FxActorId(0), CommandId(0)),
            actor: FxActorId(0),
            target: FractureTarget::Bond(BondId(0)),
            health_loss: s(10.0),
            effective_length_loss: s(1.0),
            source: DamageSource::Script,
        },
    ];
    apply_fracture_commands(&mut family, &commands);
    let events = split_dirty_actors(&mut family);
    assert_eq!(events[0].fragments[0], vec![SupportNodeId(0)]);
    assert_eq!(events[0].fragments[1], vec![SupportNodeId(1)]);
    assert_eq!(events[0].fragments[2], vec![SupportNodeId(2)]);
}

#[test]
fn wrong_actor_target_rejected() {
    let mut family = family_for(asset_from_rows(&["##"], &[Some(0), Some(1)]));
    let before = family.deterministic_state_digest();
    let damage = DamageInput {
        order_key: DeterministicOrderKey::new(1, 1, family.id, FxActorId(99), CommandId(0)),
        actor: FxActorId(99),
        target: FractureTarget::Bond(BondId(0)),
        health_loss: s(10.0),
        effective_length_loss: s(1.0),
        source: DamageSource::Script,
        position: Vec2::zero(),
        radius: s(0.0),
    };
    assert!(generate_damage_commands(&family, &[damage]).is_empty());
    let command = FractureCommand {
        order_key: DeterministicOrderKey::new(1, 1, family.id, FxActorId(99), CommandId(0)),
        actor: FxActorId(99),
        target: FractureTarget::Bond(BondId(0)),
        health_loss: s(10.0),
        effective_length_loss: s(1.0),
        source: DamageSource::Script,
    };
    assert!(apply_fracture_commands(&mut family, &[command]).is_empty());
    assert_eq!(before, family.deterministic_state_digest());
}

#[test]
fn stale_command_after_split_rejected() {
    let mut family = family_for(chain_asset());
    let split_command = FractureCommand {
        order_key: DeterministicOrderKey::new(1, 1, family.id, FxActorId(0), CommandId(0)),
        actor: FxActorId(0),
        target: FractureTarget::Bond(BondId(1)),
        health_loss: s(10.0),
        effective_length_loss: s(1.0),
        source: DamageSource::Script,
    };
    apply_fracture_commands(&mut family, &[split_command]);
    split_dirty_actors(&mut family);
    let before = family.deterministic_state_digest();
    let stale = FractureCommand {
        order_key: DeterministicOrderKey::new(2, 1, family.id, FxActorId(1), CommandId(0)),
        actor: FxActorId(1),
        target: FractureTarget::Bond(BondId(0)),
        health_loss: s(10.0),
        effective_length_loss: s(1.0),
        source: DamageSource::Script,
    };
    assert!(apply_fracture_commands(&mut family, &[stale]).is_empty());
    assert_eq!(before, family.deterministic_state_digest());
}

#[test]
fn negative_loss_does_not_heal() {
    let mut family = family_for(asset_from_rows(&["##"], &[Some(0), Some(1)]));
    let damage = FractureCommand {
        order_key: DeterministicOrderKey::new(1, 1, family.id, FxActorId(0), CommandId(0)),
        actor: FxActorId(0),
        target: FractureTarget::Bond(BondId(0)),
        health_loss: s(2.0),
        effective_length_loss: s(0.25),
        source: DamageSource::Script,
    };
    apply_fracture_commands(&mut family, &[damage]);
    let before = family.deterministic_state_digest();
    let health = family.bond_state(BondId(0)).unwrap().health;
    let effective_length = family.bond_state(BondId(0)).unwrap().effective_length;
    let negative = FractureCommand {
        order_key: DeterministicOrderKey::new(2, 1, family.id, FxActorId(0), CommandId(0)),
        actor: FxActorId(0),
        target: FractureTarget::Bond(BondId(0)),
        health_loss: s(-5.0),
        effective_length_loss: s(-5.0),
        source: DamageSource::Script,
    };
    assert!(apply_fracture_commands(&mut family, &[negative]).is_empty());
    assert_eq!(health, family.bond_state(BondId(0)).unwrap().health);
    assert_eq!(
        effective_length,
        family.bond_state(BondId(0)).unwrap().effective_length
    );
    assert_eq!(before, family.deterministic_state_digest());
}

#[test]
fn node_target_effective_length_only_is_noop() {
    let mut family = family_for(asset_from_rows(&["#"], &[Some(0)]));
    let before = family.deterministic_state_digest();
    let command = FractureCommand {
        order_key: DeterministicOrderKey::new(1, 1, family.id, FxActorId(0), CommandId(0)),
        actor: FxActorId(0),
        target: FractureTarget::Node(SupportNodeId(0)),
        health_loss: s(0.0),
        effective_length_loss: s(1.0),
        source: DamageSource::Script,
    };
    let events = apply_fracture_commands(&mut family, &[command]);
    assert!(events.is_empty());
    assert!(!family.is_dirty(FxActorId(0)));
    assert_eq!(before, family.deterministic_state_digest());
}

#[test]
fn apply_fracture_mutates_visible_chunk_health() {
    let occupancy = DenseOccupancy::from_rows(&["##"]).unwrap();
    let mut desc = FxAssetDesc::new(FxAssetId(1), s(1.0), occupancy, map(2, &[Some(0), Some(1)]));
    desc.authored_chunks = Some(vec![
        Chunk2D {
            id: ChunkId(10),
            support_nodes: vec![],
            parent: Some(ChunkId(20)),
        },
        Chunk2D {
            id: ChunkId(20),
            support_nodes: vec![SupportNodeId(0), SupportNodeId(1)],
            parent: None,
        },
    ]);
    let mut family = family_for(FxAsset::from_desc(desc).unwrap());
    let family_id = family.id;

    let events = apply_fracture_commands(
        &mut family,
        &[FractureCommand {
            order_key: DeterministicOrderKey::new(1, 1, family_id, FxActorId(0), CommandId(0)),
            actor: FxActorId(0),
            target: FractureTarget::Chunk(ChunkId(10)),
            health_loss: s(0.25),
            effective_length_loss: s(1.0),
            source: DamageSource::Script,
        }],
    );

    assert_eq!(events.len(), 1);
    assert_eq!(events[0].target, FractureTarget::Chunk(ChunkId(10)));
    assert_eq!(events[0].old_health, s(1.0));
    assert_eq!(events[0].new_health, s(0.75));
    assert_eq!(family.chunk_state(ChunkId(10)).unwrap().health, s(0.75));
    assert_eq!(family.node_state(SupportNodeId(0)).unwrap().health, s(1.0));
}

#[test]
fn deterministic_digest_changes_when_chunk_health_changes() {
    let occupancy = DenseOccupancy::from_rows(&["##"]).unwrap();
    let mut desc = FxAssetDesc::new(FxAssetId(1), s(1.0), occupancy, map(2, &[Some(0), Some(1)]));
    desc.authored_chunks = Some(vec![
        Chunk2D {
            id: ChunkId(10),
            support_nodes: vec![],
            parent: Some(ChunkId(20)),
        },
        Chunk2D {
            id: ChunkId(20),
            support_nodes: vec![SupportNodeId(0), SupportNodeId(1)],
            parent: None,
        },
    ]);
    let mut family = family_for(FxAsset::from_desc(desc).unwrap());
    let before = family.deterministic_state_digest();
    let family_id = family.id;

    apply_fracture_commands(
        &mut family,
        &[FractureCommand {
            order_key: DeterministicOrderKey::new(1, 1, family_id, FxActorId(0), CommandId(0)),
            actor: FxActorId(0),
            target: FractureTarget::Chunk(ChunkId(10)),
            health_loss: s(0.25),
            effective_length_loss: s(0.0),
            source: DamageSource::Script,
        }],
    );

    assert_ne!(before, family.deterministic_state_digest());
}

#[test]
fn deterministic_digest_changes_when_effective_length_changes() {
    let mut family = family_for(asset_from_rows(&["##"], &[Some(0), Some(1)]));
    let before = family.deterministic_state_digest();
    let command = FractureCommand {
        order_key: DeterministicOrderKey::new(1, 1, family.id, FxActorId(0), CommandId(0)),
        actor: FxActorId(0),
        target: FractureTarget::Bond(BondId(0)),
        health_loss: s(0.0),
        effective_length_loss: s(0.25),
        source: DamageSource::Script,
    };
    apply_fracture_commands(&mut family, &[command]);
    assert_ne!(before, family.deterministic_state_digest());
}

#[test]
fn deterministic_digest_changes_when_actor_ownership_splits() {
    let mut family = family_for(chain_asset());
    let before = family.deterministic_state_digest();
    let command = FractureCommand {
        order_key: DeterministicOrderKey::new(1, 1, family.id, FxActorId(0), CommandId(0)),
        actor: FxActorId(0),
        target: FractureTarget::Bond(BondId(1)),
        health_loss: s(10.0),
        effective_length_loss: s(1.0),
        source: DamageSource::Script,
    };
    apply_fracture_commands(&mut family, &[command]);
    split_dirty_actors(&mut family);
    assert_ne!(before, family.deterministic_state_digest());
    assert_eq!(family.node_owner(SupportNodeId(2)), Some(FxActorId(1)));
}

#[test]
fn deterministic_digest_changes_when_event_allocator_state_changes() {
    let mut family = family_for(asset_from_rows(&["##"], &[Some(0), Some(1)]));
    let before = family.deterministic_state_digest();
    assert_eq!(family.next_event_id, 0);
    let command = FractureCommand {
        order_key: DeterministicOrderKey::new(1, 1, family.id, FxActorId(0), CommandId(0)),
        actor: FxActorId(0),
        target: FractureTarget::Bond(BondId(0)),
        health_loss: s(1.0),
        effective_length_loss: s(0.0),
        source: DamageSource::Script,
    };
    apply_fracture_commands(&mut family, &[command]);
    assert_eq!(family.next_event_id, 1);
    assert_ne!(before, family.deterministic_state_digest());
}

#[test]
fn static_anchor_stress_fixed_endpoint() {
    let mut family = family_for(asset_from_rows(&["#"], &[Some(0)]));
    let anchor = family
        .connect_static_anchor(static_anchor_desc(7, 0))
        .unwrap();
    let solver = StressSolver2D::new(StressSettings {
        damage_per_overload: s(1.0),
        ..Default::default()
    });
    let input = StressInput {
        order_key: DeterministicOrderKey::new(1, 1, family.id, FxActorId(0), CommandId(0)),
        actor: FxActorId(0),
        node: SupportNodeId(0),
        force: Vec2::new(s(1.0), s(0.0)),
        source: DamageSource::Stress,
    };

    let commands = solver.generate(&family, &[input.clone()]);
    assert_eq!(commands.len(), 1);
    assert_eq!(commands[0].target, FractureTarget::ExternalBond(anchor));
    apply_fracture_commands(&mut family, &commands);
    assert!(family.external_bond_state(anchor).unwrap().is_broken());
    assert!(
        solver.generate(&family, &[input]).is_empty(),
        "broken external anchors must stop acting as fixed endpoints"
    );
}

#[test]
fn static_anchor_compression_does_not_break_external_bond() {
    let mut family = family_for(asset_from_rows(&["#"], &[Some(0)]));
    let anchor = family
        .connect_static_anchor(static_anchor_desc(7, 0))
        .unwrap();
    let solver = StressSolver2D::new(StressSettings {
        damage_per_overload: s(1.0),
        ..Default::default()
    });
    let input = StressInput {
        order_key: DeterministicOrderKey::new(1, 1, family.id, FxActorId(0), CommandId(0)),
        actor: FxActorId(0),
        node: SupportNodeId(0),
        force: Vec2::new(s(-1.0), s(0.0)),
        source: DamageSource::Stress,
    };

    let commands = solver.generate(&family, &[input]);
    assert!(commands.is_empty());
    assert!(!family.external_bond_state(anchor).unwrap().is_broken());
}

#[test]
fn static_external_bonds_keep_world_bound_fragments_grouped() {
    for (idx, kind) in [
        ExternalTargetKind::World,
        ExternalTargetKind::Static,
        ExternalTargetKind::Kinematic,
    ]
    .into_iter()
    .enumerate()
    {
        let mut family = family_for(asset_from_rows(&["##"], &[Some(0), Some(1)]));
        let target = ExternalTarget2D {
            kind,
            token: ExternalTargetToken(0),
        };
        let mut anchor_a = static_anchor_desc(7 + idx as u32 * 2, 0);
        anchor_a.target = target;
        let mut anchor_b = static_anchor_desc(8 + idx as u32 * 2, 1);
        anchor_b.target = target;
        family.connect_static_anchor(anchor_a).unwrap();
        family.connect_static_anchor(anchor_b).unwrap();
        let family_id = family.id;
        apply_fracture_commands(
            &mut family,
            &[break_bond_command(1, family_id, FxActorId(0), BondId(0))],
        );

        assert_eq!(
            component_without_bond(
                family.actor(FxActorId(0)).unwrap(),
                &family,
                SupportNodeId(0),
                None,
            ),
            vec![SupportNodeId(0)],
            "stress/internal component traversal must not cross external endpoints"
        );
        assert!(
            split_dirty_actors(&mut family).is_empty(),
            "live bonds to the same exact fixed target must keep split grouping connected"
        );
        assert_eq!(family.actor_count(), 1);
        assert_eq!(
            family.actor(FxActorId(0)).unwrap().owned_nodes,
            vec![SupportNodeId(0), SupportNodeId(1)]
        );
    }
}

#[test]
fn broken_external_bond_does_not_group_actor() {
    let mut family = family_for(asset_from_rows(&["##"], &[Some(0), Some(1)]));
    family
        .connect_static_anchor(static_anchor_desc(7, 0))
        .unwrap();
    family
        .connect_static_anchor(static_anchor_desc(8, 1))
        .unwrap();
    let family_id = family.id;
    apply_fracture_commands(
        &mut family,
        &[break_external_bond_command(
            1,
            family_id,
            FxActorId(0),
            ExternalBondId(8),
        )],
    );
    assert!(
        family
            .external_bond_state(ExternalBondId(8))
            .unwrap()
            .is_broken()
    );
    apply_fracture_commands(
        &mut family,
        &[break_bond_command(2, family_id, FxActorId(0), BondId(0))],
    );

    let events = split_dirty_actors(&mut family);
    assert_eq!(events.len(), 1);
    assert_eq!(
        events[0].fragments,
        vec![vec![SupportNodeId(0)], vec![SupportNodeId(1)]]
    );
    assert_eq!(events[0].created_children, vec![FxActorId(1)]);
    assert_eq!(family.actor_count(), 2);
}

#[test]
fn breaking_external_bond_after_grouped_noop_marks_actor_dirty() {
    let mut family = family_for(asset_from_rows(&["##"], &[Some(0), Some(1)]));
    family
        .connect_static_anchor(static_anchor_desc(7, 0))
        .unwrap();
    family
        .connect_static_anchor(static_anchor_desc(8, 1))
        .unwrap();
    let family_id = family.id;
    apply_fracture_commands(
        &mut family,
        &[break_bond_command(1, family_id, FxActorId(0), BondId(0))],
    );

    assert!(
        split_dirty_actors(&mut family).is_empty(),
        "same-target external anchors should make the first split pass a no-op"
    );
    assert!(!family.is_dirty(FxActorId(0)));
    assert_eq!(family.actor_count(), 1);

    apply_fracture_commands(
        &mut family,
        &[break_external_bond_command(
            2,
            family_id,
            FxActorId(0),
            ExternalBondId(8),
        )],
    );
    assert!(
        family.is_dirty(FxActorId(0)),
        "breaking the external topology edge must requeue the owning actor for split"
    );

    let events = split_dirty_actors(&mut family);
    assert_eq!(events.len(), 1);
    assert_eq!(
        events[0].fragments,
        vec![vec![SupportNodeId(0)], vec![SupportNodeId(1)]]
    );
    assert_eq!(events[0].created_children, vec![FxActorId(1)]);
    assert_eq!(family.actor_count(), 2);
}

#[test]
fn different_external_targets_do_not_group() {
    let mut family = family_for(asset_from_rows(&["##"], &[Some(0), Some(1)]));
    family
        .connect_static_anchor(static_anchor_desc(7, 0))
        .unwrap();
    let mut other_target = static_anchor_desc(8, 1);
    other_target.target = ExternalTarget2D {
        kind: ExternalTargetKind::World,
        token: ExternalTargetToken(1),
    };
    family.connect_static_anchor(other_target).unwrap();
    let family_id = family.id;
    apply_fracture_commands(
        &mut family,
        &[break_bond_command(1, family_id, FxActorId(0), BondId(0))],
    );

    let events = split_dirty_actors(&mut family);
    assert_eq!(events.len(), 1);
    assert_eq!(
        events[0].fragments,
        vec![vec![SupportNodeId(0)], vec![SupportNodeId(1)]],
        "external target grouping must use full ExternalTarget2D equality, including token"
    );
    assert_eq!(family.actor_count(), 2);
}

#[test]
fn stress_frame_cap_is_per_actor() {
    let mut family = family_for(asset_from_rows(&["#.#"], &[Some(0), None, Some(1)]));
    let _anchor0 = family
        .connect_static_anchor(static_anchor_desc(7, 0))
        .unwrap();
    let _anchor1 = family
        .connect_static_anchor(static_anchor_desc(8, 1))
        .unwrap();
    let solver = StressSolver2D::new(StressSettings {
        damage_per_overload: s(1.0),
        max_fractures_per_frame: 1,
        ..Default::default()
    });
    let report = solver.generate_with_profile(
        &family,
        &[
            StressInput {
                order_key: DeterministicOrderKey::new(
                    1,
                    1,
                    family.id,
                    FxActorId(0),
                    CommandId(2),
                ),
                actor: FxActorId(0),
                node: SupportNodeId(0),
                force: Vec2::new(s(1.0), s(0.0)),
                source: DamageSource::Stress,
            },
            StressInput {
                order_key: DeterministicOrderKey::new(
                    1,
                    1,
                    family.id,
                    FxActorId(1),
                    CommandId(1),
                ),
                actor: FxActorId(1),
                node: SupportNodeId(1),
                force: Vec2::new(s(1.0), s(0.0)),
                source: DamageSource::Stress,
            },
        ],
    );
    assert_eq!(report.profile.input_count, 2);
    assert_eq!(report.profile.actor_count_visited, 2);
    assert_eq!(report.profile.actors_with_input, 2);
    assert_eq!(report.profile.external_bond_candidates, 2);
    assert_eq!(report.profile.external_bonds_tested, 2);
    assert_eq!(report.profile.generated_commands_before_cap, 2);
    assert_eq!(report.profile.generated_commands_after_cap, 2);
    assert_eq!(report.profile.frame_cap, 1);
    assert_eq!(report.commands.len(), 2);
    assert_eq!(solver.generate(&family, &[]).len(), 0);
    assert_eq!(report.commands[0].actor, FxActorId(0));
    assert_eq!(
        report.commands[0].target,
        FractureTarget::ExternalBond(ExternalBondId(7))
    );
    assert_eq!(report.commands[1].actor, FxActorId(1));
    assert_eq!(
        report.commands[1].target,
        FractureTarget::ExternalBond(ExternalBondId(8))
    );
}

#[test]
fn dynamic_bond_graph_only() {
    let mut family = family_for(asset_from_rows(&["#.#"], &[Some(0), None, Some(1)]));
    assert_eq!(family.actor_count(), 2);
    let connection = family
        .connect_dynamic_structural_bond_graph_only(dynamic_graph_only_desc(11, 0, 1))
        .unwrap();
    assert_eq!(family.actor_count(), 2);
    assert_eq!(
        family.dynamic_structural_bond(connection).unwrap().policy,
        DynamicConnectionPolicy::GraphOnly
    );

    let solver = StressSolver2D::new(StressSettings {
        damage_per_overload: s(0.5),
        ..Default::default()
    });
    let commands = solver.generate(
        &family,
        &[StressInput {
            order_key: DeterministicOrderKey::new(1, 1, family.id, FxActorId(0), CommandId(0)),
            actor: FxActorId(0),
            node: SupportNodeId(0),
            force: Vec2::new(s(1.0), s(0.0)),
            source: DamageSource::Stress,
        }],
    );
    assert_eq!(commands.len(), 1);
    assert_eq!(commands[0].target, FractureTarget::Connection(connection));
    apply_fracture_commands(&mut family, &commands);
    assert_eq!(
        family
            .dynamic_structural_bond_state(connection)
            .unwrap()
            .health,
        s(0.5)
    );
    assert!(family.is_dirty(FxActorId(0)));
    assert!(family.is_dirty(FxActorId(1)));
    assert!(split_dirty_actors(&mut family).is_empty());
    assert_eq!(family.actor_count(), 2);
}

#[test]
fn connection_validation_rejects_invalid_inputs() {
    let mut family = family_for(asset_from_rows(&["#.#"], &[Some(0), None, Some(1)]));
    assert_eq!(
        family
            .connect_static_anchor(static_anchor_desc(1, 99))
            .unwrap_err(),
        ConnectionError::UnknownNode(SupportNodeId(99))
    );
    let mut invalid_anchor = static_anchor_desc(1, 0);
    invalid_anchor.health = s(f32::NAN);
    assert_eq!(
        family.connect_static_anchor(invalid_anchor).unwrap_err(),
        ConnectionError::InvalidExternalBondRuntime(ExternalBondId(1))
    );
    family
        .connect_static_anchor(static_anchor_desc(1, 0))
        .unwrap();
    assert_eq!(
        family
            .connect_static_anchor(static_anchor_desc(1, 1))
            .unwrap_err(),
        ConnectionError::DuplicateExternalBond(ExternalBondId(1))
    );

    assert_eq!(
        family
            .connect_dynamic_structural_bond_graph_only(dynamic_graph_only_desc(2, 0, 0))
            .unwrap_err(),
        ConnectionError::SelfConnection(SupportNodeId(0))
    );
    let mut invalid_dynamic = dynamic_graph_only_desc(2, 0, 1);
    invalid_dynamic.effective_length = s(-1.0);
    assert_eq!(
        family
            .connect_dynamic_structural_bond_graph_only(invalid_dynamic)
            .unwrap_err(),
        ConnectionError::InvalidConnectionRuntime(ConnectionId(2))
    );
    family
        .connect_dynamic_structural_bond_graph_only(dynamic_graph_only_desc(2, 0, 1))
        .unwrap();
    assert_eq!(
        family
            .connect_dynamic_structural_bond_graph_only(dynamic_graph_only_desc(2, 1, 0))
            .unwrap_err(),
        ConnectionError::DuplicateConnection(ConnectionId(2))
    );
}

#[test]
fn same_family_actor_merge_preserves_connection_state() {
    let mut family = family_for(asset_from_rows(&["#.#"], &[Some(0), None, Some(1)]));
    family
        .connect_static_anchor(static_anchor_desc(3, 1))
        .unwrap();
    let family_id = family.id;
    let connection = family
        .connect_dynamic_structural_bond_graph_only(dynamic_graph_only_desc(4, 0, 1))
        .unwrap();
    apply_fracture_commands(
        &mut family,
        &[FractureCommand {
            order_key: DeterministicOrderKey::new(1, 1, family_id, FxActorId(0), CommandId(0)),
            actor: FxActorId(0),
            target: FractureTarget::Connection(connection),
            health_loss: s(0.25),
            effective_length_loss: s(0.0),
            source: DamageSource::Script,
        }],
    );

    let result = family.merge_actors(FxActorId(1), FxActorId(0)).unwrap();
    assert_eq!(result.kept_actor, FxActorId(0));
    assert_eq!(result.removed_actor, FxActorId(1));
    assert_eq!(family.actor_count(), 1);
    assert_eq!(family.node_owner(SupportNodeId(0)), Some(FxActorId(0)));
    assert_eq!(family.node_owner(SupportNodeId(1)), Some(FxActorId(0)));
    assert!(!family.is_dirty(FxActorId(0)));
    assert_eq!(
        actor_components(family.actor(FxActorId(0)).unwrap(), &family).len(),
        1
    );
    assert_eq!(
        family
            .external_bond_state(ExternalBondId(3))
            .unwrap()
            .health,
        s(1.0)
    );
    assert_eq!(
        family
            .dynamic_structural_bond_state(connection)
            .unwrap()
            .health,
        s(0.75)
    );
}

#[test]
fn merge_preserves_dirty_split_obligation() {
    let mut family = family_for(asset_from_rows(
        &["##.#"],
        &[Some(0), Some(1), None, Some(2)],
    ));
    let family_id = family.id;
    family
        .connect_dynamic_structural_bond_graph_only(dynamic_graph_only_desc(12, 0, 2))
        .unwrap();
    apply_fracture_commands(
        &mut family,
        &[FractureCommand {
            order_key: DeterministicOrderKey::new(1, 1, family_id, FxActorId(0), CommandId(0)),
            actor: FxActorId(0),
            target: FractureTarget::Bond(BondId(0)),
            health_loss: s(10.0),
            effective_length_loss: s(1.0),
            source: DamageSource::Script,
        }],
    );
    assert!(family.is_dirty(FxActorId(0)));

    let result = family.merge_actors(FxActorId(0), FxActorId(1)).unwrap();
    assert_eq!(result.kept_actor, FxActorId(0));
    assert!(family.is_dirty(FxActorId(0)));
    assert!(!family.is_dirty(FxActorId(1)));

    let events = split_dirty_actors(&mut family);
    assert_eq!(events.len(), 1);
    assert_eq!(events[0].parent_actor, FxActorId(0));
    assert_eq!(events[0].fragments.len(), 2);
}

#[test]
fn graph_only_connection_stress_generates_once_for_two_endpoint_inputs() {
    let mut family = family_for(asset_from_rows(&["#.#"], &[Some(0), None, Some(1)]));
    let connection = family
        .connect_dynamic_structural_bond_graph_only(dynamic_graph_only_desc(8, 0, 1))
        .unwrap();
    let solver = StressSolver2D::new(StressSettings {
        damage_per_overload: s(0.25),
        ..Default::default()
    });
    let commands = solver.generate(
        &family,
        &[
            StressInput {
                order_key: DeterministicOrderKey::new(
                    1,
                    1,
                    family.id,
                    FxActorId(0),
                    CommandId(0),
                ),
                actor: FxActorId(0),
                node: SupportNodeId(0),
                force: Vec2::new(s(1.0), s(0.0)),
                source: DamageSource::Stress,
            },
            StressInput {
                order_key: DeterministicOrderKey::new(
                    1,
                    1,
                    family.id,
                    FxActorId(1),
                    CommandId(1),
                ),
                actor: FxActorId(1),
                node: SupportNodeId(1),
                force: Vec2::new(s(-1.0), s(0.0)),
                source: DamageSource::Stress,
            },
        ],
    );
    assert_eq!(commands.len(), 1);
    assert_eq!(commands[0].target, FractureTarget::Connection(connection));
    let events = apply_fracture_commands(&mut family, &commands);
    assert_eq!(events.len(), 1);
    assert_eq!(
        family
            .dynamic_structural_bond_state(connection)
            .unwrap()
            .health,
        s(0.75)
    );
}

#[test]
fn graph_only_connection_compression_does_not_break() {
    let mut family = family_for(asset_from_rows(&["#.#"], &[Some(0), None, Some(1)]));
    family
        .connect_dynamic_structural_bond_graph_only(dynamic_graph_only_desc(8, 0, 1))
        .unwrap();
    let solver = StressSolver2D::new(StressSettings {
        damage_per_overload: s(0.25),
        ..Default::default()
    });
    let commands = solver.generate(
        &family,
        &[
            StressInput {
                order_key: DeterministicOrderKey::new(
                    1,
                    1,
                    family.id,
                    FxActorId(0),
                    CommandId(0),
                ),
                actor: FxActorId(0),
                node: SupportNodeId(0),
                force: Vec2::new(s(-1.0), s(0.0)),
                source: DamageSource::Stress,
            },
            StressInput {
                order_key: DeterministicOrderKey::new(
                    1,
                    1,
                    family.id,
                    FxActorId(1),
                    CommandId(1),
                ),
                actor: FxActorId(1),
                node: SupportNodeId(1),
                force: Vec2::new(s(1.0), s(0.0)),
                source: DamageSource::Stress,
            },
        ],
    );
    assert!(commands.is_empty());
}

#[test]
fn graph_only_connection_mixed_two_sided_modes_use_mode_wise_limits() {
    let mut family = family_for(asset_from_rows(&["#.#"], &[Some(0), None, Some(1)]));
    let mut desc = dynamic_graph_only_desc(8, 0, 1);
    desc.tension_limit = s(10.0);
    desc.shear_limit = s(100.0);
    let connection = family
        .connect_dynamic_structural_bond_graph_only(desc)
        .unwrap();
    let solver = StressSolver2D::new(StressSettings {
        damage_per_overload: s(0.25),
        ..Default::default()
    });
    let commands = solver.generate(
        &family,
        &[
            StressInput {
                order_key: DeterministicOrderKey::new(
                    1,
                    1,
                    family.id,
                    FxActorId(0),
                    CommandId(0),
                ),
                actor: FxActorId(0),
                node: SupportNodeId(0),
                force: Vec2::new(s(20.0), s(0.0)),
                source: DamageSource::Stress,
            },
            StressInput {
                order_key: DeterministicOrderKey::new(
                    1,
                    1,
                    family.id,
                    FxActorId(1),
                    CommandId(1),
                ),
                actor: FxActorId(1),
                node: SupportNodeId(1),
                force: Vec2::new(s(0.0), s(50.0)),
                source: DamageSource::Stress,
            },
        ],
    );
    assert_eq!(commands.len(), 1);
    assert_eq!(commands[0].target, FractureTarget::Connection(connection));
    assert_eq!(commands[0].effective_length_loss, s(1.0));
}

#[test]
fn repair_plan_rejects_removed_external_bond_endpoint() {
    let mut family = family_for(asset_from_rows(&["##"], &[Some(0), Some(1)]));
    family
        .connect_static_anchor(static_anchor_desc(3, 1))
        .unwrap();
    let asset = asset_from_rows(&["#"], &[Some(0)]);
    let node_states = vec![(
        SupportNodeId(0),
        family.node_state(SupportNodeId(0)).unwrap().clone(),
    )];
    let err = family
        .apply_repair_plan(RepairPlan {
            asset,
            node_owners: vec![(SupportNodeId(0), FxActorId(0))],
            node_states,
            bond_states: vec![],
            dirty_actors: vec![FxActorId(0)],
        })
        .unwrap_err();
    assert_eq!(
        err,
        RepairError::StaleExternalBondEndpoint {
            bond: ExternalBondId(3),
            node: SupportNodeId(1),
        }
    );
}

#[test]
fn repair_plan_rejects_removed_dynamic_connection_endpoint() {
    let mut family = family_for(asset_from_rows(&["##"], &[Some(0), Some(1)]));
    family
        .connect_dynamic_structural_bond_graph_only(dynamic_graph_only_desc(4, 0, 1))
        .unwrap();
    let asset = asset_from_rows(&["#"], &[Some(0)]);
    let node_states = vec![(
        SupportNodeId(0),
        family.node_state(SupportNodeId(0)).unwrap().clone(),
    )];
    let err = family
        .apply_repair_plan(RepairPlan {
            asset,
            node_owners: vec![(SupportNodeId(0), FxActorId(0))],
            node_states,
            bond_states: vec![],
            dirty_actors: vec![FxActorId(0)],
        })
        .unwrap_err();
    assert_eq!(
        err,
        RepairError::StaleDynamicConnectionEndpoint {
            connection: ConnectionId(4),
            node: SupportNodeId(1),
        }
    );
}

#[test]
fn merge_actors_requires_unbroken_graph_connection() {
    let mut family = family_for(asset_from_rows(&["#.#"], &[Some(0), None, Some(1)]));
    let before = family.deterministic_state_digest();
    let err = family.merge_actors(FxActorId(0), FxActorId(1)).unwrap_err();
    assert_eq!(
        err,
        ConnectionError::MissingMergeConnection {
            actor_a: FxActorId(0),
            actor_b: FxActorId(1),
        }
    );
    assert_eq!(family.deterministic_state_digest(), before);
    assert_eq!(family.actor_count(), 2);

    let connection = family
        .connect_dynamic_structural_bond_graph_only(dynamic_graph_only_desc(9, 0, 1))
        .unwrap();
    apply_fracture_commands(
        &mut family,
        &[FractureCommand {
            order_key: DeterministicOrderKey::new(
                1,
                1,
                FxFamilyId(3),
                FxActorId(0),
                CommandId(0),
            ),
            actor: FxActorId(0),
            target: FractureTarget::Connection(connection),
            health_loss: s(1.0),
            effective_length_loss: s(1.0),
            source: DamageSource::Script,
        }],
    );
    let before_broken_merge = family.deterministic_state_digest();
    let err = family.merge_actors(FxActorId(0), FxActorId(1)).unwrap_err();
    assert_eq!(
        err,
        ConnectionError::MissingMergeConnection {
            actor_a: FxActorId(0),
            actor_b: FxActorId(1),
        }
    );
    assert_eq!(family.deterministic_state_digest(), before_broken_merge);
    assert_eq!(family.actor_count(), 2);
}

#[test]
fn broken_external_and_dynamic_connections_ignore_direct_damage() {
    let mut external_family = family_for(asset_from_rows(&["#"], &[Some(0)]));
    let external = external_family
        .connect_static_anchor(static_anchor_desc(1, 0))
        .unwrap();
    let external_family_id = external_family.id;
    apply_fracture_commands(
        &mut external_family,
        &[FractureCommand {
            order_key: DeterministicOrderKey::new(
                1,
                1,
                external_family_id,
                FxActorId(0),
                CommandId(0),
            ),
            actor: FxActorId(0),
            target: FractureTarget::ExternalBond(external),
            health_loss: s(1.0),
            effective_length_loss: s(1.0),
            source: DamageSource::Script,
        }],
    );
    assert!(
        external_family
            .external_bond_state(external)
            .unwrap()
            .is_broken()
    );
    let before = external_family.deterministic_state_digest();
    let external_damage = DamageInput {
        order_key: DeterministicOrderKey::new(
            2,
            1,
            external_family.id,
            FxActorId(0),
            CommandId(0),
        ),
        actor: FxActorId(0),
        target: FractureTarget::ExternalBond(external),
        health_loss: s(1.0),
        effective_length_loss: s(1.0),
        source: DamageSource::Script,
        position: Vec2::zero(),
        radius: s(0.0),
    };
    assert!(generate_damage_commands(&external_family, &[external_damage.clone()]).is_empty());
    assert!(
        generate_damage_commands(
            &external_family,
            &[DamageInput {
                target: FractureTarget::Node(SupportNodeId(0)),
                ..external_damage.clone()
            }],
        )
        .is_empty()
    );
    assert!(
        apply_fracture_commands(
            &mut external_family,
            &[FractureCommand {
                order_key: DeterministicOrderKey::new(
                    3,
                    1,
                    FxFamilyId(3),
                    FxActorId(0),
                    CommandId(0),
                ),
                actor: FxActorId(0),
                target: FractureTarget::ExternalBond(external),
                health_loss: s(1.0),
                effective_length_loss: s(1.0),
                source: DamageSource::Script,
            }],
        )
        .is_empty()
    );
    assert_eq!(external_family.deterministic_state_digest(), before);

    let mut dynamic_family = family_for(asset_from_rows(&["#.#"], &[Some(0), None, Some(1)]));
    let connection = dynamic_family
        .connect_dynamic_structural_bond_graph_only(dynamic_graph_only_desc(2, 0, 1))
        .unwrap();
    let dynamic_family_id = dynamic_family.id;
    apply_fracture_commands(
        &mut dynamic_family,
        &[FractureCommand {
            order_key: DeterministicOrderKey::new(
                1,
                1,
                dynamic_family_id,
                FxActorId(0),
                CommandId(0),
            ),
            actor: FxActorId(0),
            target: FractureTarget::Connection(connection),
            health_loss: s(1.0),
            effective_length_loss: s(1.0),
            source: DamageSource::Script,
        }],
    );
    assert!(
        dynamic_family
            .dynamic_structural_bond_state(connection)
            .unwrap()
            .is_broken()
    );
    let before = dynamic_family.deterministic_state_digest();
    let dynamic_damage = DamageInput {
        order_key: DeterministicOrderKey::new(
            2,
            1,
            dynamic_family.id,
            FxActorId(0),
            CommandId(0),
        ),
        actor: FxActorId(0),
        target: FractureTarget::Connection(connection),
        health_loss: s(1.0),
        effective_length_loss: s(1.0),
        source: DamageSource::Script,
        position: Vec2::zero(),
        radius: s(0.0),
    };
    assert!(generate_damage_commands(&dynamic_family, &[dynamic_damage.clone()]).is_empty());
    assert!(
        generate_damage_commands(
            &dynamic_family,
            &[DamageInput {
                target: FractureTarget::Node(SupportNodeId(0)),
                ..dynamic_damage.clone()
            }],
        )
        .is_empty()
    );
    assert!(
        apply_fracture_commands(
            &mut dynamic_family,
            &[FractureCommand {
                order_key: DeterministicOrderKey::new(
                    3,
                    1,
                    FxFamilyId(3),
                    FxActorId(0),
                    CommandId(0),
                ),
                actor: FxActorId(0),
                target: FractureTarget::Connection(connection),
                health_loss: s(1.0),
                effective_length_loss: s(1.0),
                source: DamageSource::Script,
            }],
        )
        .is_empty()
    );
    assert_eq!(dynamic_family.deterministic_state_digest(), before);
}

#[test]
fn phase4_digest_includes_connection_state() {
    fn digest_with_external(desc: StaticAnchorDesc) -> u64 {
        let mut family = family_for(asset_from_rows(&["#"], &[Some(0)]));
        family.connect_static_anchor(desc).unwrap();
        family.deterministic_state_digest()
    }

    fn digest_with_dynamic(desc: DynamicStructuralBondDesc) -> u64 {
        let mut family = family_for(disconnected_three_node_asset());
        family
            .connect_dynamic_structural_bond_graph_only(desc)
            .unwrap();
        family.deterministic_state_digest()
    }

    let external_base = static_anchor_desc(1, 0);
    let external_base_digest = digest_with_external(external_base.clone());

    let mut external_target = external_base.clone();
    external_target.target = ExternalTarget2D {
        kind: ExternalTargetKind::Static,
        token: ExternalTargetToken(42),
    };
    assert_ne!(external_base_digest, digest_with_external(external_target));

    let mut external_anchor = external_base.clone();
    external_anchor.anchor = Vec2::new(s(9.0), s(2.0));
    assert_ne!(external_base_digest, digest_with_external(external_anchor));

    let mut external_normal = external_base.clone();
    external_normal.normal = Vec2::new(s(0.0), s(1.0));
    assert_ne!(external_base_digest, digest_with_external(external_normal));

    let mut external_limits = external_base.clone();
    external_limits.tension_limit = s(0.5);
    external_limits.shear_limit = s(0.75);
    assert_ne!(external_base_digest, digest_with_external(external_limits));

    let mut external_runtime_family = family_for(asset_from_rows(&["#"], &[Some(0)]));
    external_runtime_family
        .connect_static_anchor(external_base)
        .unwrap();
    let before_external_runtime = external_runtime_family.deterministic_state_digest();
    apply_fracture_commands(
        &mut external_runtime_family,
        &[FractureCommand {
            order_key: DeterministicOrderKey::new(
                1,
                1,
                FxFamilyId(3),
                FxActorId(0),
                CommandId(0),
            ),
            actor: FxActorId(0),
            target: FractureTarget::ExternalBond(ExternalBondId(1)),
            health_loss: s(0.25),
            effective_length_loss: s(0.25),
            source: DamageSource::Script,
        }],
    );
    assert_ne!(
        before_external_runtime,
        external_runtime_family.deterministic_state_digest()
    );

    let dynamic_base = dynamic_graph_only_desc(5, 0, 1);
    let dynamic_base_digest = digest_with_dynamic(dynamic_base.clone());

    let dynamic_endpoint = dynamic_graph_only_desc(5, 0, 2);
    assert_ne!(dynamic_base_digest, digest_with_dynamic(dynamic_endpoint));

    let mut dynamic_centroid = dynamic_base.clone();
    dynamic_centroid.centroid = Vec2::new(s(4.0), s(3.0));
    assert_ne!(dynamic_base_digest, digest_with_dynamic(dynamic_centroid));

    let mut dynamic_normal = dynamic_base.clone();
    dynamic_normal.normal = Vec2::new(s(0.0), s(1.0));
    assert_ne!(dynamic_base_digest, digest_with_dynamic(dynamic_normal));

    let mut dynamic_limits = dynamic_base.clone();
    dynamic_limits.tension_limit = s(0.5);
    dynamic_limits.shear_limit = s(0.75);
    assert_ne!(dynamic_base_digest, digest_with_dynamic(dynamic_limits));

    let mut dynamic_policy_family = family_for(disconnected_three_node_asset());
    dynamic_policy_family
        .connect_dynamic_structural_bond_graph_only(dynamic_base.clone())
        .unwrap();
    let before_dynamic_policy = dynamic_policy_family.deterministic_state_digest();
    dynamic_policy_family.dynamic_structural_bonds.entries[0].1.policy =
        DynamicConnectionPolicy::CustomHardConstraint;
    assert_ne!(
        before_dynamic_policy,
        dynamic_policy_family.deterministic_state_digest()
    );

    let mut dynamic_runtime_family = family_for(disconnected_three_node_asset());
    dynamic_runtime_family
        .connect_dynamic_structural_bond_graph_only(dynamic_base)
        .unwrap();
    let before_dynamic_runtime = dynamic_runtime_family.deterministic_state_digest();
    apply_fracture_commands(
        &mut dynamic_runtime_family,
        &[FractureCommand {
            order_key: DeterministicOrderKey::new(
                1,
                1,
                FxFamilyId(3),
                FxActorId(0),
                CommandId(0),
            ),
            actor: FxActorId(0),
            target: FractureTarget::Connection(ConnectionId(5)),
            health_loss: s(0.25),
            effective_length_loss: s(0.25),
            source: DamageSource::Script,
        }],
    );
    assert_ne!(
        before_dynamic_runtime,
        dynamic_runtime_family.deterministic_state_digest()
    );

    let build = |reverse: bool| {
        let mut family = family_for(asset_from_rows(&["#.#"], &[Some(0), None, Some(1)]));
        let static_a = static_anchor_desc(2, 0);
        let static_b = static_anchor_desc(1, 1);
        let dynamic_a = dynamic_graph_only_desc(6, 0, 1);
        let dynamic_b = dynamic_graph_only_desc(5, 0, 1);
        if reverse {
            family.connect_static_anchor(static_a).unwrap();
            family
                .connect_dynamic_structural_bond_graph_only(dynamic_a)
                .unwrap();
            family.connect_static_anchor(static_b).unwrap();
            family
                .connect_dynamic_structural_bond_graph_only(dynamic_b)
                .unwrap();
        } else {
            family
                .connect_dynamic_structural_bond_graph_only(dynamic_b)
                .unwrap();
            family.connect_static_anchor(static_b).unwrap();
            family
                .connect_dynamic_structural_bond_graph_only(dynamic_a)
                .unwrap();
            family.connect_static_anchor(static_a).unwrap();
        }
        family
    };
    let mut a = build(false);
    let b = build(true);
    assert_eq!(
        a.deterministic_state_digest(),
        b.deterministic_state_digest()
    );

    let before = a.deterministic_state_digest();
    let family_id = a.id;
    apply_fracture_commands(
        &mut a,
        &[FractureCommand {
            order_key: DeterministicOrderKey::new(1, 1, family_id, FxActorId(1), CommandId(0)),
            actor: FxActorId(1),
            target: FractureTarget::ExternalBond(ExternalBondId(1)),
            health_loss: s(0.25),
            effective_length_loss: s(0.0),
            source: DamageSource::Script,
        }],
    );
    assert_ne!(before, a.deterministic_state_digest());
}

#[test]
fn initial_disconnected_asset_instantiates_stable_actor_islands() {
    let family = family_for(asset_from_rows(&["#.#"], &[Some(0), None, Some(1)]));
    assert_eq!(family.actor_count(), 2);
    assert_eq!(
        family.actor(FxActorId(0)).unwrap().owned_nodes,
        vec![SupportNodeId(0)]
    );
    assert_eq!(
        family.actor(FxActorId(1)).unwrap().owned_nodes,
        vec![SupportNodeId(1)]
    );
    assert_eq!(family.next_actor_id, 2);
}

#[test]
fn phase1_thin_slice_generate_apply_stress_split() {
    let asset = asset_from_rows(&["####"], &[Some(0), Some(1), Some(2), Some(3)]);
    let mut family = family_for(asset);
    let start_digest = family.deterministic_state_digest();

    let damage_inputs = vec![
        DamageInput {
            order_key: DeterministicOrderKey::new(1, 1, family.id, FxActorId(0), CommandId(1)),
            actor: FxActorId(0),
            target: FractureTarget::Bond(BondId(2)),
            health_loss: s(9.5),
            effective_length_loss: s(0.0),
            source: DamageSource::Script,
            position: Vec2::new(s(2.5), s(0.5)),
            radius: s(0.0),
        },
        DamageInput {
            order_key: DeterministicOrderKey::new(1, 1, family.id, FxActorId(0), CommandId(0)),
            actor: FxActorId(0),
            target: FractureTarget::Bond(BondId(0)),
            health_loss: s(10.0),
            effective_length_loss: s(1.0),
            source: DamageSource::Script,
            position: Vec2::new(s(0.5), s(0.5)),
            radius: s(0.0),
        },
    ];
    let damage_commands = generate_damage_commands(&family, &damage_inputs);
    assert_eq!(damage_commands.len(), 2);
    assert_eq!(start_digest, family.deterministic_state_digest());

    let damage_events = apply_fracture_commands(&mut family, &damage_commands);
    assert_eq!(damage_events.len(), 2);
    assert_eq!(family.bond_state(BondId(0)).unwrap().health, s(0.0));
    assert_eq!(family.bond_state(BondId(2)).unwrap().health, s(0.5));

    let after_damage_digest = family.deterministic_state_digest();
    assert_ne!(start_digest, after_damage_digest);
    let solver = StressSolver2D::new(StressSettings {
        damage_per_overload: s(10.0),
        ..Default::default()
    });
    let stress_inputs = vec![StressInput {
        order_key: DeterministicOrderKey::new(2, 1, family.id, FxActorId(0), CommandId(0)),
        actor: FxActorId(0),
        node: SupportNodeId(3),
        force: Vec2::new(s(-10.0), s(0.0)),
        source: DamageSource::ContactImpulse,
    }];
    let stress_commands = solver.generate(&family, &stress_inputs);
    assert_eq!(after_damage_digest, family.deterministic_state_digest());
    assert_eq!(stress_commands.len(), 1);
    assert_eq!(stress_commands[0].target, FractureTarget::Bond(BondId(2)));

    let stress_events = apply_fracture_commands(&mut family, &stress_commands);
    assert_eq!(stress_events.len(), 1);
    assert_eq!(family.bond_state(BondId(2)).unwrap().health, s(0.0));

    let split_events = split_dirty_actors(&mut family);
    assert_eq!(split_events.len(), 1);
    assert_eq!(split_events[0].kept_actor, FxActorId(0));
    assert_eq!(
        family.actor(FxActorId(0)).unwrap().owned_nodes,
        vec![SupportNodeId(1), SupportNodeId(2)]
    );
    assert_eq!(
        family.actor(FxActorId(1)).unwrap().owned_nodes,
        vec![SupportNodeId(0)]
    );
    assert_eq!(
        family.actor(FxActorId(2)).unwrap().owned_nodes,
        vec![SupportNodeId(3)]
    );
    assert_ne!(after_damage_digest, family.deterministic_state_digest());
}

#[test]
fn grids_list_and_number_their_cells() {
    let occupancy = DenseOccupancy::from_rows(&["#.#", ".#."]).unwrap();
    assert_eq!(
        occupancy.occupied_voxels(),
        [
            GridCoord::new(0, 0),
            GridCoord::new(2, 0),
            GridCoord::new(1, 1)
        ]
    );
    assert_eq!(occupancy.index_of(GridCoord::new(1, 1)), Some(4));
    assert_eq!(occupancy.index_of(GridCoord::new(3, 0)), None);
    assert_eq!(occupancy.cell_count(), 6);
    let asset = chain_asset();
    assert_eq!(
        asset.voxel_to_node_map(),
        [
            Some(SupportNodeId(0)),
            Some(SupportNodeId(1)),
            Some(SupportNodeId(2))
        ]
    );
}

#[test]
fn nodes_cover_each_occupied_cell_once() {
    let asset = asset_from_rows(
        &["##.", ".##"],
        &[Some(0), Some(0), None, None, Some(1), Some(1)],
    );
    for y in 0..2 {
        for x in 0..3 {
            let coord = GridCoord::new(x, y);
            let holders = asset
                .support_nodes()
                .iter()
                .filter(|node| node.voxels.contains(&coord))
                .count();
            let expected = usize::from(asset.occupancy().is_occupied(coord));
            assert_eq!(holders, expected);
        }
    }
}

#[test]
fn no_damage_heals() {
    let mut family = family_for(chain_asset());
    for (health_loss, length_loss) in [
        (3.0, 0.25),
        (-5.0, -5.0),
        (f32::NAN, 0.125),
        (0.0, 0.0),
        (f32::INFINITY, f32::INFINITY),
        (-1.0e30, 2.0),
    ] {
        let before = *family.bond_state(BondId(0)).unwrap();
        let command = FractureCommand {
            order_key: DeterministicOrderKey::new(1, 1, family.id, FxActorId(0), CommandId(0)),
            actor: FxActorId(0),
            target: FractureTarget::Bond(BondId(0)),
            health_loss: s(health_loss),
            effective_length_loss: s(length_loss),
            source: DamageSource::Script,
        };
        apply_fracture_commands(&mut family, &[command]);
        let after = *family.bond_state(BondId(0)).unwrap();
        assert!(after.health.is_at_most(before.health));
        assert!(after.effective_length.is_at_most(before.effective_length));
        assert!(s(0.0).is_at_most(after.health));
    }
}

#[test]
fn damage_does_not_depend_on_the_order_of_commands() {
    let command = |id: u32, bond: u32, loss: f32| FractureCommand {
        order_key: DeterministicOrderKey::new(
            1,
            1,
            FxFamilyId(3),
            FxActorId(0),
            CommandId(id),
        ),
        actor: FxActorId(0),
        target: FractureTarget::Bond(BondId(bond)),
        health_loss: s(loss),
        effective_length_loss: s(0.1),
        source: DamageSource::Script,
    };
    let commands = [command(0, 0, 0.3), command(1, 0, 0.7), command(2, 1, 1.1)];
    let reversed = [commands[2], commands[1], commands[0]];
    let mut forward = family_for(chain_asset());
    let mut backward = family_for(chain_asset());
    assert_eq!(
        apply_fracture_commands(&mut forward, &commands),
        apply_fracture_commands(&mut backward, &reversed)
    );
    assert_eq!(forward, backward);
}
