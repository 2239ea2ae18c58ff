use fracture_core::{
    run_replay_ticks, BondId, CommandId, DamageSource, DenseOccupancy, DeterministicOrderKey,
    FractureCommand, FractureTarget, FxActorId, FxAsset, FxAssetDesc, FxAssetId, FxFamily,
    FxFamilyId, ReplayCommand, ReplayError, Scalar, SupportNodeId,
};

fn s(value: f32) -> Scalar {
    Scalar::from_bits(value.to_bits())
}

fn asset_from_rows(rows: &[&str], nodes: &[Option<u32>]) -> FxAsset {
    let occupancy = DenseOccupancy::from_rows(rows).unwrap();
    let support_node_map = nodes
        .iter()
        .map(|node| node.map(SupportNodeId))
        .collect::<Vec<_>>();
    let mut desc = FxAssetDesc::new(FxAssetId(1), s(1.0), occupancy, support_node_map);
    desc.default_bond_health = s(1.0);
    FxAsset::from_desc(desc).unwrap()
}

fn break_bond(tick: u64, stable_order: u64, bond: BondId) -> ReplayCommand {
    ReplayCommand {
        tick,
        stable_order,
        command: FractureCommand {
            order_key: DeterministicOrderKey::new(
                tick,
                0,
                FxFamilyId(3),
                FxActorId(0),
                CommandId(stable_order as u32),
            ),
            actor: FxActorId(0),
            target: FractureTarget::Bond(bond),
            health_loss: s(2.0),
            effective_length_loss: s(2.0),
            source: DamageSource::Script,
        },
    }
}

#[test]
fn replay_deterministic_sort_commands() {
    let mut family = FxFamily::instantiate(
        FxFamilyId(3),
        asset_from_rows(&["###"], &[Some(0), Some(1), Some(2)]),
    );
    let traces = run_replay_ticks(
        &mut family,
        0,
        2,
        &[
            break_bond(1, 9, BondId(1)),
            break_bond(0, 2, BondId(1)),
            break_bond(0, 1, BondId(0)),
        ],
    )
    .unwrap();
    assert_eq!(
        traces[0]
            .fracture_events
            .iter()
            .map(|event| event.target)
            .collect::<Vec<_>>(),
        vec![
            FractureTarget::Bond(BondId(0)),
            FractureTarget::Bond(BondId(1))
        ]
    );
}

#[test]
fn replay_split_order() {
    let asset = asset_from_rows(&["####"], &[Some(0), Some(1), Some(2), Some(3)]);
    let mut a = FxFamily::instantiate(FxFamilyId(3), asset.clone());
    let mut b = FxFamily::instantiate(FxFamilyId(3), asset);
    let commands = [break_bond(0, 2, BondId(2)), break_bond(0, 1, BondId(0))];
    let reversed = [commands[1].clone(), commands[0].clone()];
    let a_trace = run_replay_ticks(&mut a, 0, 1, &commands).unwrap();
    let b_trace = run_replay_ticks(&mut b, 0, 1, &reversed).unwrap();
    assert_eq!(a_trace[0].split_events, b_trace[0].split_events);
    assert_eq!(a_trace[0].family_digest, b_trace[0].family_digest);
    assert_eq!(a_trace[0].split_events.len(), 1);
    assert_eq!(a_trace[0].split_events[0].kept_actor, FxActorId(0));
}

#[test]
fn replay_rejects_same_key_different_payload_before_apply() {
    let asset = asset_from_rows(&["###"], &[Some(0), Some(1), Some(2)]);
    let mut family = FxFamily::instantiate(FxFamilyId(3), asset);
    let before = family.deterministic_state_digest();
    let mut ambiguous = break_bond(0, 1, BondId(0));
    ambiguous.command.actor = FxActorId(1);
    ambiguous.command.health_loss = s(3.0);
    ambiguous.command.effective_length_loss = s(0.5);
    ambiguous.command.source = DamageSource::Stress;

    assert_eq!(
        run_replay_ticks(&mut family, 0, 1, &[break_bond(0, 1, BondId(0)), ambiguous])
            .unwrap_err(),
        ReplayError::AmbiguousDuplicateKey {
            tick: 0,
            stable_order: 1
        }
    );
    assert_eq!(family.deterministic_state_digest(), before);
}
