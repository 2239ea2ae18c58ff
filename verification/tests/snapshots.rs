use fracture_core::asset_codec::write_asset_payload;
use fracture_core::codec::Writer;
use fracture_core::snapshot::{unwrap_payload, wrap_payload, MAGIC_ASSET, MAGIC_FAMILY};
use fracture_core::snapshot_check::validate_family_snapshot;
use fracture_core::{
    apply_fracture_commands, encode_family_snapshot, restore_family_snapshot, split_dirty_actors,
    BondId, Chunk2D, ChunkId, CommandId, ConnectionId, DamageSource, DenseOccupancy,
    DeterministicOrderKey, DynamicStructuralBondDesc, EventId, ExternalBondId, ExternalTarget2D,
    ExternalTargetKind, ExternalTargetToken, FractureCommand, FractureTarget, FxActorId, FxAsset,
    FxAssetDesc, FxAssetId, FxCoreSnapshotError, FxFamily, FxFamilyId, Scalar, SnapshotMode,
    StaticAnchorDesc, SupportNodeId, ValidationError, Vec2,
};

fn s(value: f32) -> Scalar {
    Scalar::from_bits(value.to_bits())
}

fn asset_from_rows(rows: &[&str], map: &[Option<u32>]) -> FxAsset {
    asset_from_rows_with_limits(rows, map, s(10.0), s(10.0), s(10.0))
}

fn asset_from_rows_with_limits(
    rows: &[&str],
    map: &[Option<u32>],
    tension_limit: Scalar,
    compression_limit: Scalar,
    shear_limit: Scalar,
) -> FxAsset {
    let occupancy = DenseOccupancy::from_rows(rows).unwrap();
    let mut desc = FxAssetDesc::new(
        FxAssetId(7),
        s(1.0),
        occupancy,
        map.iter().map(|id| id.map(SupportNodeId)).collect(),
    );
    desc.default_tension_limit = tension_limit;
    desc.default_compression_limit = compression_limit;
    desc.default_shear_limit = shear_limit;
    FxAsset::from_desc(desc).unwrap()
}

fn non_leaf_support_asset() -> FxAsset {
    let occupancy = DenseOccupancy::from_rows(&["##"]).unwrap();
    let mut desc = FxAssetDesc::new(
        FxAssetId(7),
        s(1.0),
        occupancy,
        vec![Some(SupportNodeId(0)), Some(SupportNodeId(1))],
    );
    desc.authored_chunks = Some(vec![
        Chunk2D {
            id: ChunkId(10),
            support_nodes: vec![],
            parent: Some(ChunkId(20)),
        },
        Chunk2D {
            id: ChunkId(20),
            support_nodes: vec![SupportNodeId(0), SupportNodeId(1)],
            parent: None,
        },
    ]);
    FxAsset::from_desc(desc).unwrap()
}

fn family_snapshot_payload(family: &FxFamily) -> Vec<u8> {
    let bytes = family
        .to_snapshot_bytes(SnapshotMode::Deterministic)
        .unwrap();
    unwrap_payload(&bytes, MAGIC_FAMILY).unwrap().1.to_vec()
}

fn asset_snapshot_payload(asset: &FxAsset) -> Vec<u8> {
    let mut payload = Writer::new();
    write_asset_payload(&mut payload, asset).unwrap();
    payload.into_inner()
}

fn wrapped_asset_payload(payload: Vec<u8>) -> Vec<u8> {
    wrap_payload(MAGIC_ASSET, SnapshotMode::Deterministic, 0, payload)
}

fn wrapped_family_payload(payload: Vec<u8>) -> Vec<u8> {
    wrap_payload(MAGIC_FAMILY, SnapshotMode::Deterministic, 0, payload)
}

fn patch_first(bytes: &mut [u8], needle: &[u8], replacement: &[u8]) {
    assert_eq!(needle.len(), replacement.len());
    let offset = bytes
        .windows(needle.len())
        .position(|window| window == needle)
        .expect("needle not found");
    bytes[offset..offset + replacement.len()].copy_from_slice(replacement);
}

fn patch_last(bytes: &mut [u8], needle: &[u8], replacement: &[u8]) {
    assert_eq!(needle.len(), replacement.len());
    let offset = bytes
        .windows(needle.len())
        .rposition(|window| window == needle)
        .expect("needle not found");
    bytes[offset..offset + replacement.len()].copy_from_slice(replacement);
}

fn dynamic_bond_offset(bytes: &[u8], id: ConnectionId) -> usize {
    let needle = [id.0.to_le_bytes(), id.0.to_le_bytes()].concat();
    bytes
        .windows(needle.len())
        .position(|window| window == needle)
        .expect("dynamic bond id pair not found")
}

#[test]
fn core_snapshot_roundtrip_preserves_digest_and_allocator_state() {
    let asset =
        asset_from_rows_with_limits(&["###"], &[Some(0), Some(1), Some(2)], s(11.0), s(17.0), s(23.0));
    let mut family = FxFamily::instantiate(FxFamilyId(3), asset);
    apply_fracture_commands(
        &mut family,
        &[FractureCommand {
            order_key: DeterministicOrderKey::new(
                1,
                1,
                FxFamilyId(3),
                FxActorId(0),
                CommandId(0),
            ),
            actor: FxActorId(0),
            target: FractureTarget::Bond(BondId(0)),
            health_loss: s(1.0),
            effective_length_loss: s(1.0),
            source: DamageSource::Script,
        }],
    );
    let split_events = split_dirty_actors(&mut family);
    assert_eq!(split_events.len(), 1);
    let external_id = family
        .connect_static_anchor(StaticAnchorDesc {
            id: ExternalBondId(5),
            node: SupportNodeId(2),
            target: ExternalTarget2D {
                kind: ExternalTargetKind::World,
                token: ExternalTargetToken(0),
            },
            anchor: Vec2::new(s(2.5), s(0.5)),
            normal: Vec2::new(s(1.0), s(0.0)),
            health: s(1.0),
            effective_length: s(1.0),
            tension_limit: s(31.0),
            compression_limit: s(37.0),
            shear_limit: s(41.0),
        })
        .unwrap();
    let dynamic_id = family
        .connect_dynamic_structural_bond_graph_only(DynamicStructuralBondDesc {
            id: ConnectionId(9),
            node_a: SupportNodeId(0),
            node_b: SupportNodeId(2),
            centroid: Vec2::new(s(1.5), s(0.5)),
            normal: Vec2::new(s(1.0), s(0.0)),
            health: s(1.0),
            effective_length: s(1.0),
            tension_limit: s(43.0),
            compression_limit: s(47.0),
            shear_limit: s(53.0),
        })
        .unwrap();
    let digest = family.deterministic_state_digest();
    let mut digest_probe = family.clone();
    digest_probe.asset.internal_bonds[0].compression_limit = s(19.0);
    assert_ne!(digest_probe.deterministic_state_digest(), digest);
    let mut digest_probe = family.clone();
    digest_probe
        .external_bonds.entries[0].1
        .compression_limit = s(39.0);
    assert_ne!(digest_probe.deterministic_state_digest(), digest);
    let mut digest_probe = family.clone();
    digest_probe
        .dynamic_structural_bonds.entries[0].1
        .compression_limit = s(49.0);
    assert_ne!(digest_probe.deterministic_state_digest(), digest);
    let bytes = family
        .to_snapshot_bytes(SnapshotMode::Deterministic)
        .unwrap();
    let mut restored = FxFamily::from_snapshot_bytes(&bytes).unwrap();
    assert_eq!(restored.asset.internal_bonds[0].tension_limit, s(11.0));
    assert_eq!(restored.asset.internal_bonds[0].compression_limit, s(17.0));
    assert_eq!(restored.asset.internal_bonds[0].shear_limit, s(23.0));
    assert_eq!(
        restored
            .external_bonds.get(external_id.0)
            .unwrap()
            .tension_limit,
        s(31.0)
    );
    assert_eq!(
        restored
            .external_bonds.get(external_id.0)
            .unwrap()
            .compression_limit,
        s(37.0)
    );
    assert_eq!(
        restored
            .external_bonds.get(external_id.0)
            .unwrap()
            .shear_limit,
        s(41.0)
    );
    assert_eq!(
        restored
            .dynamic_structural_bonds.get(dynamic_id.0)
            .unwrap()
            .tension_limit,
        s(43.0)
    );
    assert_eq!(
        restored
            .dynamic_structural_bonds.get(dynamic_id.0)
            .unwrap()
            .compression_limit,
        s(47.0)
    );
    assert_eq!(
        restored
            .dynamic_structural_bonds.get(dynamic_id.0)
            .unwrap()
            .shear_limit,
        s(53.0)
    );
    assert_eq!(restored.deterministic_state_digest(), digest);

    let events = apply_fracture_commands(
        &mut restored,
        &[FractureCommand {
            order_key: DeterministicOrderKey::new(
                2,
                1,
                FxFamilyId(3),
                FxActorId(0),
                CommandId(1),
            ),
            actor: FxActorId(0),
            target: FractureTarget::Bond(BondId(1)),
            health_loss: s(1.0),
            effective_length_loss: s(1.0),
            source: DamageSource::Script,
        }],
    );
    assert_eq!(events[0].event_id, EventId(2));
}

#[test]
fn snapshot_restore() {
    let asset = asset_from_rows(&["###"], &[Some(0), Some(1), Some(2)]);
    let mut family = FxFamily::instantiate(FxFamilyId(3), asset);
    apply_fracture_commands(
        &mut family,
        &[FractureCommand {
            order_key: DeterministicOrderKey::new(
                1,
                1,
                FxFamilyId(3),
                FxActorId(0),
                CommandId(0),
            ),
            actor: FxActorId(0),
            target: FractureTarget::Bond(BondId(0)),
            health_loss: s(1.0),
            effective_length_loss: s(1.0),
            source: DamageSource::Script,
        }],
    );
    split_dirty_actors(&mut family);
    let bytes = encode_family_snapshot(&family, SnapshotMode::Deterministic).unwrap();
    assert_eq!(&bytes[0..4], b"RFXS");
    let restored = restore_family_snapshot(&bytes).unwrap();
    assert_eq!(restored, family);
    assert_eq!(
        restored.deterministic_state_digest(),
        family.deterministic_state_digest()
    );
}

#[test]
fn core_snapshot_roundtrip_preserves_non_leaf_support_chunks() {
    let asset = non_leaf_support_asset();
    let bytes = asset
        .to_snapshot_bytes(SnapshotMode::Deterministic)
        .unwrap();
    let restored_asset = FxAsset::from_snapshot_bytes(&bytes).unwrap();
    assert_eq!(restored_asset, asset);
    assert_eq!(restored_asset.support_nodes()[0].chunk_id, ChunkId(20));
    assert!(
        restored_asset
            .chunk(ChunkId(10))
            .unwrap()
            .support_nodes
            .is_empty()
    );

    let mut family = FxFamily::instantiate(FxFamilyId(3), asset);
    apply_fracture_commands(
        &mut family,
        &[FractureCommand {
            order_key: DeterministicOrderKey::new(
                1,
                1,
                FxFamilyId(3),
                FxActorId(0),
                CommandId(0),
            ),
            actor: FxActorId(0),
            target: FractureTarget::Chunk(ChunkId(10)),
            health_loss: s(0.25),
            effective_length_loss: s(0.0),
            source: DamageSource::Script,
        }],
    );
    let digest = family.deterministic_state_digest();
    let bytes = family
        .to_snapshot_bytes(SnapshotMode::Deterministic)
        .unwrap();
    let restored = FxFamily::from_snapshot_bytes(&bytes).unwrap();
    assert_eq!(restored, family);
    assert_eq!(restored.deterministic_state_digest(), digest);
    assert_eq!(restored.chunk_state(ChunkId(10)).unwrap().health, s(0.75));
}

#[test]
fn core_snapshot_rejects_corrupt_header() {
    let asset = asset_from_rows(&["#"], &[Some(0)]);
    let mut bytes = asset
        .to_snapshot_bytes(SnapshotMode::Deterministic)
        .unwrap();
    bytes[12] = 99;
    assert_eq!(
        FxAsset::from_snapshot_bytes(&bytes).unwrap_err(),
        FxCoreSnapshotError::UnsupportedMode(99)
    );
}

#[test]
fn asset_snapshot_rejects_duplicate_support_node_id() {
    let mut asset = asset_from_rows(&["##"], &[Some(0), Some(1)]);
    asset.support_nodes[1].id = SupportNodeId(0);

    assert_eq!(
        FxAsset::from_snapshot_bytes(&wrapped_asset_payload(asset_snapshot_payload(&asset)))
            .unwrap_err(),
        FxCoreSnapshotError::Validation(ValidationError::DuplicateSupportNodeId(
            SupportNodeId(0)
        ))
    );
}

#[test]
fn asset_snapshot_rejects_duplicate_chunk_id() {
    let mut asset = asset_from_rows(&["##"], &[Some(0), Some(1)]);
    asset.chunks[1].id = ChunkId(0);

    assert_eq!(
        FxAsset::from_snapshot_bytes(&wrapped_asset_payload(asset_snapshot_payload(&asset)))
            .unwrap_err(),
        FxCoreSnapshotError::Validation(ValidationError::DuplicateChunkId(ChunkId(0)))
    );
}

#[test]
fn asset_snapshot_rejects_overlapping_support_ancestors() {
    let mut asset = asset_from_rows(&["##"], &[Some(0), Some(1)]);
    asset.chunks[1].parent = Some(ChunkId(0));

    assert_eq!(
        FxAsset::from_snapshot_bytes(&wrapped_asset_payload(asset_snapshot_payload(&asset)))
            .unwrap_err(),
        FxCoreSnapshotError::Validation(ValidationError::ChunkHierarchyNotExact)
    );
}

#[test]
fn asset_snapshot_rejects_non_contiguous_internal_bond_id() {
    let mut asset = asset_from_rows(&["###"], &[Some(0), Some(1), Some(2)]);
    asset.internal_bonds[1].id = BondId(3);

    assert_eq!(
        FxAsset::from_snapshot_bytes(&wrapped_asset_payload(asset_snapshot_payload(&asset)))
            .unwrap_err(),
        FxCoreSnapshotError::Validation(ValidationError::NonContiguousInternalBondId {
            expected: BondId(1),
            actual: BondId(3),
        })
    );
}

#[test]
fn asset_snapshot_rejects_duplicate_internal_bond_id() {
    let mut asset = asset_from_rows(&["###"], &[Some(0), Some(1), Some(2)]);
    asset.internal_bonds[1].id = BondId(0);

    assert_eq!(
        FxAsset::from_snapshot_bytes(&wrapped_asset_payload(asset_snapshot_payload(&asset)))
            .unwrap_err(),
        FxCoreSnapshotError::Validation(ValidationError::DuplicateInternalBondId(BondId(0)))
    );
}

#[test]
fn asset_snapshot_rejects_non_canonical_internal_bond_endpoints() {
    let mut asset = asset_from_rows(&["##"], &[Some(0), Some(1)]);
    asset.internal_bonds[0].node_a = SupportNodeId(1);
    asset.internal_bonds[0].node_b = SupportNodeId(0);

    assert_eq!(
        FxAsset::from_snapshot_bytes(&wrapped_asset_payload(asset_snapshot_payload(&asset)))
            .unwrap_err(),
        FxCoreSnapshotError::Validation(ValidationError::NonCanonicalBondEndpoints(BondId(0)))
    );
}

#[test]
fn asset_snapshot_rejects_self_internal_bond() {
    let mut asset = asset_from_rows(&["##"], &[Some(0), Some(1)]);
    asset.internal_bonds[0].node_b = SupportNodeId(0);

    assert_eq!(
        FxAsset::from_snapshot_bytes(&wrapped_asset_payload(asset_snapshot_payload(&asset)))
            .unwrap_err(),
        FxCoreSnapshotError::Validation(ValidationError::SelfBond(SupportNodeId(0)))
    );
}

#[test]
fn asset_snapshot_rejects_invalid_internal_bond_scalar() {
    let asset = asset_from_rows(&["##"], &[Some(0), Some(1)]);
    let mut payload = asset_snapshot_payload(&asset);
    patch_first(
        &mut payload,
        &10.0f32.to_bits().to_le_bytes(),
        &(-1.0f32).to_bits().to_le_bytes(),
    );

    assert_eq!(
        FxAsset::from_snapshot_bytes(&wrapped_asset_payload(payload)).unwrap_err(),
        FxCoreSnapshotError::Validation(ValidationError::InvalidBondScalar(BondId(0)))
    );
}

#[test]
fn asset_snapshot_rejects_invalid_internal_bond_direction() {
    let mut asset = asset_from_rows(&["##"], &[Some(0), Some(1)]);
    asset.internal_bonds[0].normal = Vec2::new(s(2.0), s(0.0));

    assert_eq!(
        FxAsset::from_snapshot_bytes(&wrapped_asset_payload(asset_snapshot_payload(&asset)))
            .unwrap_err(),
        FxCoreSnapshotError::Validation(ValidationError::InvalidBondDirection(BondId(0)))
    );
}

#[test]
fn family_snapshot_rejects_stale_next_actor_id() {
    let family = FxFamily::instantiate(
        FxFamilyId(3),
        asset_from_rows(&["#.#"], &[Some(0), None, Some(1)]),
    );
    let mut payload = family_snapshot_payload(&family);
    payload[4..8].copy_from_slice(&1u32.to_le_bytes());
    assert!(matches!(
        FxFamily::from_snapshot_bytes(&wrapped_family_payload(payload)),
        Err(FxCoreSnapshotError::StateMismatch(
            "next_actor_id would overwrite an existing actor"
        ))
    ));
}

#[test]
fn family_snapshot_rejects_actor_owner_bijection_mismatch() {
    let family = FxFamily::instantiate(
        FxFamilyId(3),
        asset_from_rows(&["###"], &[Some(0), Some(1), Some(2)]),
    );
    let mut duplicate_payload = family_snapshot_payload(&family);
    let needle = [
        3u32.to_le_bytes(),
        0u32.to_le_bytes(),
        1u32.to_le_bytes(),
        2u32.to_le_bytes(),
    ]
    .concat();
    let replacement = [
        3u32.to_le_bytes(),
        0u32.to_le_bytes(),
        1u32.to_le_bytes(),
        1u32.to_le_bytes(),
    ]
    .concat();
    patch_first(&mut duplicate_payload, &needle, &replacement);
    assert!(matches!(
        FxFamily::from_snapshot_bytes(&wrapped_family_payload(duplicate_payload)),
        Err(FxCoreSnapshotError::StateMismatch(
            "duplicate actor-owned node"
        ))
    ));

    let unknown_family = FxFamily::instantiate(
        FxFamilyId(3),
        asset_from_rows(&["#.#"], &[Some(0), None, Some(1)]),
    );
    let mut unknown_owner_payload = family_snapshot_payload(&unknown_family);
    let node_owner = [1u32.to_le_bytes(), 1u32.to_le_bytes()].concat();
    let unknown_owner = [1u32.to_le_bytes(), 99u32.to_le_bytes()].concat();
    patch_last(&mut unknown_owner_payload, &node_owner, &unknown_owner);
    assert!(matches!(
        FxFamily::from_snapshot_bytes(&wrapped_family_payload(unknown_owner_payload)),
        Err(FxCoreSnapshotError::StateMismatch(_))
    ));
}

#[test]
fn family_snapshot_rejects_invalid_connection_decode() {
    let mut dynamic = FxFamily::instantiate(
        FxFamilyId(3),
        asset_from_rows(&["#.#"], &[Some(0), None, Some(1)]),
    );
    dynamic
        .connect_dynamic_structural_bond_graph_only(DynamicStructuralBondDesc {
            id: ConnectionId(9),
            node_a: SupportNodeId(0),
            node_b: SupportNodeId(1),
            centroid: Vec2::new(s(1.0), s(0.5)),
            normal: Vec2::new(s(1.0), s(0.0)),
            health: s(1.0),
            effective_length: s(1.0),
            tension_limit: s(1.0),
            compression_limit: s(1.0),
            shear_limit: s(1.0),
        })
        .unwrap();
    let mut custom_policy = family_snapshot_payload(&dynamic);
    let custom_offset = dynamic_bond_offset(&custom_policy, ConnectionId(9));
    custom_policy[custom_offset + 16] = 1;
    assert!(matches!(
        FxFamily::from_snapshot_bytes(&wrapped_family_payload(custom_policy)),
        Err(FxCoreSnapshotError::UnsupportedCustomHardConstraint(
            ConnectionId(9)
        ))
    ));

    let mut self_connection = family_snapshot_payload(&dynamic);
    let self_offset = dynamic_bond_offset(&self_connection, ConnectionId(9));
    self_connection[self_offset + 12..self_offset + 16].copy_from_slice(&0u32.to_le_bytes());
    assert!(matches!(
        FxFamily::from_snapshot_bytes(&wrapped_family_payload(self_connection)),
        Err(FxCoreSnapshotError::StateMismatch(
            "dynamic bond endpoints must be canonical and non-self"
        ))
    ));

    let mut external =
        FxFamily::instantiate(FxFamilyId(4), asset_from_rows(&["#"], &[Some(0)]));
    external
        .connect_static_anchor(StaticAnchorDesc {
            id: ExternalBondId(5),
            node: SupportNodeId(0),
            target: ExternalTarget2D {
                kind: ExternalTargetKind::World,
                token: ExternalTargetToken(0),
            },
            anchor: Vec2::new(s(0.5), s(0.5)),
            normal: Vec2::new(s(1.0), s(0.0)),
            health: s(1.0),
            effective_length: s(1.0),
            tension_limit: s(1.0),
            compression_limit: s(1.0),
            shear_limit: s(1.0),
        })
        .unwrap();
    external
        .external_bonds.entries[0].1
        .tangent = Vec2::new(s(1.0), s(0.0));
    assert!(matches!(
        validate_family_snapshot(&external),
        Err(FxCoreSnapshotError::InvalidValue("external_bond.direction"))
    ));
}

#[test]
fn snapshot_decode_rejects_checksum_trailing_and_invalid_option() {
    let asset = asset_from_rows(&["#"], &[Some(0)]);
    let mut checksum = asset
        .to_snapshot_bytes(SnapshotMode::Deterministic)
        .unwrap();
    let last = checksum.last_mut().unwrap();
    *last ^= 0x80;
    assert_eq!(
        FxAsset::from_snapshot_bytes(&checksum).unwrap_err(),
        FxCoreSnapshotError::PayloadChecksumMismatch
    );

    let mut payload = {
        let bytes = asset
            .to_snapshot_bytes(SnapshotMode::Deterministic)
            .unwrap();
        unwrap_payload(&bytes, MAGIC_ASSET).unwrap().1.to_vec()
    };
    payload.push(0);
    assert_eq!(
        FxAsset::from_snapshot_bytes(&wrap_payload(
            MAGIC_ASSET,
            SnapshotMode::Deterministic,
            0,
            payload
        ))
        .unwrap_err(),
        FxCoreSnapshotError::TrailingBytes
    );

    let mut invalid_option_payload = {
        let bytes = asset
            .to_snapshot_bytes(SnapshotMode::Deterministic)
            .unwrap();
        unwrap_payload(&bytes, MAGIC_ASSET).unwrap().1.to_vec()
    };
    let valid_option = [1u8, 0, 0, 0, 0];
    let invalid_option = [2u8, 0, 0, 0, 0];
    patch_first(&mut invalid_option_payload, &valid_option, &invalid_option);
    assert_eq!(
        FxAsset::from_snapshot_bytes(&wrap_payload(
            MAGIC_ASSET,
            SnapshotMode::Deterministic,
            0,
            invalid_option_payload
        ))
        .unwrap_err(),
        FxCoreSnapshotError::InvalidValue("voxel_to_node")
    );
}
