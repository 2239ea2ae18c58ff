//! Contacts between colliders: materials, who may touch whom, and what the host is told.

use crate::geometry::{norm, turned, vec_scaled, vec_sum, Vec2};
use crate::host::handles::{
    body_packed_id, pack_collider_handle, packed_body, packed_collider, AlchemyRapierColliderHandle,
    AlchemyRapierRigidBodyHandle,
};
use crate::host::status::{AlchemyRapierIVec2, AlchemyRapierStatus};
use crate::idmap::{ascending, lemma_put, lookup, put, IdMap};
use crate::scalar::{
    absolute, at_most, clamped, maximum, negated, product, sum, Scalar, HALF_BITS, ONE_BITS,
};
use crate::truncation::minimum;
use vstd::prelude::*;

verus! {

/// The bit pattern of `0.000001`, below which an impulse is none.
pub const NO_IMPULSE_BITS: u32 = 0x3586_37bd;

/// The cell of a contact that is on no voxel.
pub const INVALID_SOURCE_CELL_ID: u32 = 0xffff_ffff;

/// How the coefficients of two materials are combined; of two rules the later one decides.
#[derive(Clone, Copy, Debug, PartialEq, Eq, Structural)]
pub enum AlchemyRapierCoefficientCombineRule {
    Average,
    Min,
    Multiply,
    Max,
    ClampedSum,
}

impl Default for AlchemyRapierCoefficientCombineRule {
    fn default() -> (r: Self)
        ensures
            r == AlchemyRapierCoefficientCombineRule::Average,
    {
        AlchemyRapierCoefficientCombineRule::Average
    }
}

#[derive(Clone, Copy, Debug, PartialEq, Eq, Structural)]
pub struct AlchemyRapierContactMaterialDesc {
    pub material_id: u16,
    pub friction: Scalar,
    pub restitution: Scalar,
    pub friction_combine_rule: AlchemyRapierCoefficientCombineRule,
    pub restitution_combine_rule: AlchemyRapierCoefficientCombineRule,
    pub hardness: Scalar,
}

#[derive(Clone, Copy, Debug, PartialEq, Eq, Structural)]
pub struct ContactMaterial {
    pub friction: Scalar,
    pub restitution: Scalar,
    pub friction_combine_rule: AlchemyRapierCoefficientCombineRule,
    pub restitution_combine_rule: AlchemyRapierCoefficientCombineRule,
    pub hardness: Scalar,
}

/// A voxel of a collider as the host describes it.
#[derive(Clone, Copy, Debug, PartialEq, Eq, Structural)]
pub struct AlchemyRapierVoxelCell {
    pub coord: AlchemyRapierIVec2,
    pub material_id: u16,
    pub source_cell_id: u32,
}

/// What is kept of a voxel of a collider.
#[derive(Clone, Copy, Debug, PartialEq, Eq, Structural)]
pub struct VoxelCellMetadata {
    pub material_id: u16,
    pub source_cell_id: u32,
}

/// One point of contact as the host reads it.
#[derive(Clone, Copy, Debug, PartialEq, Eq, Structural)]
pub struct AlchemyRapierContactSample {
    pub collider1_packed_id: u64,
    pub collider2_packed_id: u64,
    pub body1_packed_id: u64,
    pub body2_packed_id: u64,
    pub body1_user_data: u64,
    pub body2_user_data: u64,
    pub subshape1: u32,
    pub subshape2: u32,
    pub source_cell_id1: u32,
    pub source_cell_id2: u32,
    pub material_id1: u16,
    pub material_id2: u16,
    pub point: Vec2,
    pub normal_from_2_to_1: Vec2,
    pub impulse_on_body1: Vec2,
    pub collision_impulse: Scalar,
}

/// The place of a rule in the order of the rules.
pub open spec fn rule_rank(rule: AlchemyRapierCoefficientCombineRule) -> int {
    match rule {
        AlchemyRapierCoefficientCombineRule::Average => 0,
        AlchemyRapierCoefficientCombineRule::Min => 1,
        AlchemyRapierCoefficientCombineRule::Multiply => 2,
        AlchemyRapierCoefficientCombineRule::Max => 3,
        AlchemyRapierCoefficientCombineRule::ClampedSum => 4,
    }
}

/// The later one of two rules.
pub open spec fn deciding_rule(
    left: AlchemyRapierCoefficientCombineRule,
    right: AlchemyRapierCoefficientCombineRule,
) -> AlchemyRapierCoefficientCombineRule {
    if rule_rank(left) <= rule_rank(right) {
        right
    } else {
        left
    }
}

/// Two coefficients combined by the rule that decides.
pub open spec fn combined(
    left: Scalar,
    right: Scalar,
    left_rule: AlchemyRapierCoefficientCombineRule,
    right_rule: AlchemyRapierCoefficientCombineRule,
) -> Scalar {
    match deciding_rule(left_rule, right_rule) {
        AlchemyRapierCoefficientCombineRule::Average => product(
            sum(left, right),
            Scalar { bits: HALF_BITS },
        ),
        AlchemyRapierCoefficientCombineRule::Min => absolute(minimum(left, right)),
        AlchemyRapierCoefficientCombineRule::Multiply => product(left, right),
        AlchemyRapierCoefficientCombineRule::Max => maximum(left, right),
        AlchemyRapierCoefficientCombineRule::ClampedSum => clamped(
            sum(left, right),
            Scalar { bits: 0 },
            Scalar { bits: ONE_BITS },
        ),
    }
}

impl AlchemyRapierCoefficientCombineRule {
    fn rank(self) -> (r: u8)
        ensures
            r == rule_rank(self),
    {
        match self {
            AlchemyRapierCoefficientCombineRule::Average => 0,
            AlchemyRapierCoefficientCombineRule::Min => 1,
            AlchemyRapierCoefficientCombineRule::Multiply => 2,
            AlchemyRapierCoefficientCombineRule::Max => 3,
            AlchemyRapierCoefficientCombineRule::ClampedSum => 4,
        }
    }
}

pub fn combine_coefficient(
    left: Scalar,
    right: Scalar,
    left_rule: AlchemyRapierCoefficientCombineRule,
    right_rule: AlchemyRapierCoefficientCombineRule,
) -> (r: Scalar)
    ensures
        r == combined(left, right, left_rule, right_rule),
{
    let rule = if left_rule.rank() <= right_rule.rank() {
        right_rule
    } else {
        left_rule
    };
    match rule {
        AlchemyRapierCoefficientCombineRule::Average => left.plus(right).times(
            Scalar::from_bits(HALF_BITS),
        ),
        AlchemyRapierCoefficientCombineRule::Min => left.min(right).abs(),
        AlchemyRapierCoefficientCombineRule::Multiply => left.times(right),
        AlchemyRapierCoefficientCombineRule::Max => left.max(right),
        AlchemyRapierCoefficientCombineRule::ClampedSum => left.plus(right).clamp(
            Scalar::from_bits(0),
            Scalar::from_bits(ONE_BITS),
        ),
    }
}

/// The rule that decides does not depend on the order of the colliders.
pub proof fn lemma_deciding_rule_symmetric(
    left: AlchemyRapierCoefficientCombineRule,
    right: AlchemyRapierCoefficientCombineRule,
)
    ensures
        deciding_rule(left, right) == deciding_rule(right, left),
{
}

pub open spec fn material_valid(desc: AlchemyRapierContactMaterialDesc) -> bool {
    desc.friction.finite() && desc.restitution.finite() && desc.hardness.finite()
}

/// What is kept of a material.
pub open spec fn kept_material(desc: AlchemyRapierContactMaterialDesc) -> ContactMaterial {
    ContactMaterial {
        friction: desc.friction,
        restitution: desc.restitution,
        friction_combine_rule: desc.friction_combine_rule,
        restitution_combine_rule: desc.restitution_combine_rule,
        hardness: desc.hardness,
    }
}

/// The table of the first `n` materials; of two with the same number the later one stays.
pub open spec fn material_table(
    descs: Seq<AlchemyRapierContactMaterialDesc>,
    n: int,
) -> Seq<(u32, ContactMaterial)>
    decreases n,
{
    if n <= 0 {
        Seq::empty()
    } else {
        put(
            material_table(descs, n - 1),
            descs[n - 1].material_id as u32,
            kept_material(descs[n - 1]),
        )
    }
}

/// The number of materials before the first invalid one.
pub open spec fn valid_prefix(descs: Seq<AlchemyRapierContactMaterialDesc>, i: int) -> int
    decreases descs.len() - i,
{
    if i >= descs.len() || !material_valid(descs[i]) {
        i
    } else {
        valid_prefix(descs, i + 1)
    }
}

/// The contact materials that the host has authored, by their numbers.
#[derive(Debug)]
pub struct ContactMaterials {
    pub table: IdMap<ContactMaterial>,
}

impl View for ContactMaterials {
    type V = Seq<(u32, ContactMaterial)>;

    open spec fn view(&self) -> Seq<(u32, ContactMaterial)> {
        self.table@
    }
}

impl ContactMaterials {
    pub open spec fn wf(self) -> bool {
        ascending(self@)
    }

    pub fn new() -> (r: Self)
        ensures
            r.wf(),
            r@ == Seq::<(u32, ContactMaterial)>::empty(),
    {
        ContactMaterials { table: IdMap::new() }
    }

    /// Replaces all materials. An invalid material ends the call; those before it stay.
    pub fn set_contact_materials(&mut self, materials: &[AlchemyRapierContactMaterialDesc]) -> (r:
        AlchemyRapierStatus)
        ensures
            final(self).wf(),
            final(self)@ == material_table(materials@, valid_prefix(materials@, 0)),
            r == if valid_prefix(materials@, 0) == materials.len() {
                AlchemyRapierStatus::Success
            } else {
                AlchemyRapierStatus::InvalidArgument
            },
    {
        self.table = IdMap::new();
        let mut i: usize = 0;
        while i < materials.len()
            invariant
                i <= materials.len(),
                self.wf(),
                self@ == material_table(materials@, i as int),
                valid_prefix(materials@, 0) == valid_prefix(materials@, i as int),
            decreases materials.len() - i,
        {
            let material = materials[i];
            if !material.friction.is_finite() || !material.restitution.is_finite()
                || !material.hardness.is_finite() {
                return AlchemyRapierStatus::InvalidArgument;
            }
            let _existed = self.table.insert(
                material.material_id as u32,
                ContactMaterial {
                    friction: material.friction,
                    restitution: material.restitution,
                    friction_combine_rule: material.friction_combine_rule,
                    restitution_combine_rule: material.restitution_combine_rule,
                    hardness: material.hardness,
                },
            );
            i = i + 1;
        }
        AlchemyRapierStatus::Success
    }

    pub fn get(&self, material_id: u16) -> (r: Option<ContactMaterial>)
        requires
            self.wf(),
        ensures
            r == lookup(self@, material_id as u32),
    {
        match self.table.get(material_id as u32) {
            Some(material) => Some(*material),
            None => None,
        }
    }

    /// The material of a contact: the authored one of its voxel, else the one of its collider.
    pub fn material_for(
        &self,
        voxel: Option<VoxelCellMetadata>,
        collider: Option<ContactMaterial>,
    ) -> (r: ContactMaterial)
        requires
            self.wf(),
        ensures
            r == contact_material(self@, voxel, collider),
    {
        if let Some(voxel) = voxel {
            if let Some(material) = self.get(voxel.material_id) {
                return material;
            }
        }
        collider_contact_material(collider)
    }

    /// The friction and the restitution of a contact.
    pub fn contact_coefficients(
        &self,
        voxel1: Option<VoxelCellMetadata>,
        collider1: Option<ContactMaterial>,
        voxel2: Option<VoxelCellMetadata>,
        collider2: Option<ContactMaterial>,
    ) -> (r: (Scalar, Scalar))
        requires
            self.wf(),
        ensures
            ({
                let m1 = contact_material(self@, voxel1, collider1);
                let m2 = contact_material(self@, voxel2, collider2);
                &&& r.0 == combined(
                    m1.friction,
                    m2.friction,
                    m1.friction_combine_rule,
                    m2.friction_combine_rule,
                )
                &&& r.1 == combined(
                    m1.restitution,
                    m2.restitution,
                    m1.restitution_combine_rule,
                    m2.restitution_combine_rule,
                )
            }),
    {
        let material1 = self.material_for(voxel1, collider1);
        let material2 = self.material_for(voxel2, collider2);
        let friction = combine_coefficient(
            material1.friction,
            material2.friction,
            material1.friction_combine_rule,
            material2.friction_combine_rule,
        );
        let restitution = combine_coefficient(
            material1.restitution,
            material2.restitution,
            material1.restitution_combine_rule,
            material2.restitution_combine_rule,
        );
        (friction, restitution)
    }
}

/// The material of a collider that is not there.
pub open spec fn default_material() -> ContactMaterial {
    ContactMaterial {
        friction: Scalar { bits: HALF_BITS },
        restitution: Scalar { bits: 0 },
        friction_combine_rule: AlchemyRapierCoefficientCombineRule::Average,
        restitution_combine_rule: AlchemyRapierCoefficientCombineRule::Average,
        hardness: Scalar { bits: ONE_BITS },
    }
}

/// The material of a collider, as hard as one; a default where there is no collider.
pub open spec fn own_material(collider: Option<ContactMaterial>) -> ContactMaterial {
    match collider {
        Some(material) => ContactMaterial { hardness: Scalar { bits: ONE_BITS }, ..material },
        None => default_material(),
    }
}

/// The material of a contact.
pub open spec fn contact_material(
    table: Seq<(u32, ContactMaterial)>,
    voxel: Option<VoxelCellMetadata>,
    collider: Option<ContactMaterial>,
) -> ContactMaterial {
    match voxel {
        Some(voxel) => match lookup(table, voxel.material_id as u32) {
            Some(material) => material,
            None => own_material(collider),
        },
        None => own_material(collider),
    }
}

pub fn collider_contact_material(collider: Option<ContactMaterial>) -> (r: ContactMaterial)
    ensures
        r == own_material(collider),
{
    match collider {
        Some(material) => ContactMaterial {
            friction: material.friction,
            restitution: material.restitution,
            friction_combine_rule: material.friction_combine_rule,
            restitution_combine_rule: material.restitution_combine_rule,
            hardness: Scalar::from_bits(ONE_BITS),
        },
        None => ContactMaterial {
            friction: Scalar::from_bits(HALF_BITS),
            restitution: Scalar::from_bits(0),
            friction_combine_rule: AlchemyRapierCoefficientCombineRule::Average,
            restitution_combine_rule: AlchemyRapierCoefficientCombineRule::Average,
            hardness: Scalar::from_bits(ONE_BITS),
        },
    }
}

/// A material that was authored can be read back as it was written, unless a later one has the
/// same number.
pub proof fn lemma_material_kept(descs: Seq<AlchemyRapierContactMaterialDesc>, n: int, i: int)
    requires
        0 <= i < n <= descs.len(),
        forall|j: int|
            i < j < n ==> (#[trigger] descs[j]).material_id != descs[i].material_id,
    ensures
        ascending(material_table(descs, n)),
        lookup(material_table(descs, n), descs[i].material_id as u32) == Some(
            kept_material(descs[i]),
        ),
    decreases n,
{
    lemma_table_ascending(descs, n - 1);
    let key = descs[n - 1].material_id as u32;
    lemma_put(material_table(descs, n - 1), key, kept_material(descs[n - 1]));
    if i < n - 1 {
        lemma_material_kept(descs, n - 1, i);
    }
}

proof fn lemma_table_ascending(descs: Seq<AlchemyRapierContactMaterialDesc>, n: int)
    requires
        0 <= n <= descs.len(),
    ensures
        ascending(material_table(descs, n)),
    decreases n,
{
    if n > 0 {
        lemma_table_ascending(descs, n - 1);
        let key = descs[n - 1].material_id as u32;
        lemma_put(material_table(descs, n - 1), key, kept_material(descs[n - 1]));
    }
}

/// The table of the voxels of a collider, by the numbers that its shape gives them; a voxel
/// without a number is left out.
pub open spec fn voxel_table(
    cells: Seq<AlchemyRapierVoxelCell>,
    ids: Seq<Option<u32>>,
    n: int,
) -> Seq<(u32, VoxelCellMetadata)>
    decreases n,
{
    if n <= 0 {
        Seq::empty()
    } else {
        let before = voxel_table(cells, ids, n - 1);
        let cell = cells[n - 1];
        match ids[n - 1] {
            Some(id) => put(
                before,
                id,
                VoxelCellMetadata {
                    material_id: cell.material_id,
                    source_cell_id: cell.source_cell_id,
                },
            ),
            None => before,
        }
    }
}

pub fn voxel_metadata_table(cells: &[AlchemyRapierVoxelCell], ids: &[Option<u32>]) -> (r: IdMap<
    VoxelCellMetadata,
>)
    requires
        cells.len() == ids.len(),
    ensures
        ascending(r@),
        r@ == voxel_table(cells@, ids@, cells.len() as int),
{
    let mut table: IdMap<VoxelCellMetadata> = IdMap::new();
    let mut i: usize = 0;
    while i < cells.len()
        invariant
            i <= cells.len(),
            cells.len() == ids.len(),
            ascending(table@),
            table@ == voxel_table(cells@, ids@, i as int),
        decreases cells.len() - i,
    {
        if let Some(id) = ids[i] {
            let cell = cells[i];
            let _existed = table.insert(
                id,
                VoxelCellMetadata {
                    material_id: cell.material_id,
                    source_cell_id: cell.source_cell_id,
                },
            );
        }
        i = i + 1;
    }
    table
}

/// Half of the range of a 128-bit number: the weight of the bit that marks a collision group.
pub open spec fn group_tag() -> int {
    0x8000_0000_0000_0000_0000_0000_0000_0000
}

/// The collision group that the data of a collider names, if it is marked.
pub open spec fn collision_group(user_data: u128) -> Option<u64> {
    if user_data >= group_tag() {
        Some((user_data % 0x1_0000_0000_0000_0000) as u64)
    } else {
        None
    }
}

/// The data of a collider that belongs to a collision group.
pub fn self_collision_user_data(self_collision_group: u64) -> (r: u128)
    ensures
        r == group_tag() + self_collision_group,
        collision_group(r) == Some(self_collision_group),
{
    let tag: u128 = 0x8000_0000_0000_0000_0000_0000_0000_0000;
    let r: u128 = tag + self_collision_group as u128;
    assert(r % 0x1_0000_0000_0000_0000 == self_collision_group) by (bit_vector)
        requires
            r == 0x8000_0000_0000_0000_0000_0000_0000_0000u128 + self_collision_group as u128,
    ;
    r
}

pub fn collision_group_of(user_data: u128) -> (r: Option<u64>)
    ensures
        r == collision_group(user_data),
{
    let tag: u128 = 0x8000_0000_0000_0000_0000_0000_0000_0000;
    if user_data >= tag {
        Some((user_data % 0x1_0000_0000_0000_0000) as u64)
    } else {
        None
    }
}

/// The group of a collider that may not be there.
pub open spec fn group_of_collider(user_data: Option<u128>) -> Option<u64> {
    match user_data {
        Some(data) => collision_group(data),
        None => None,
    }
}

/// Two colliders touch unless both belong to the same collision group.
pub fn contact_pair_allowed(user_data1: Option<u128>, user_data2: Option<u128>) -> (r: bool)
    ensures
        r == (group_of_collider(user_data1) is None || group_of_collider(user_data1)
            != group_of_collider(user_data2)),
{
    let group1 = match user_data1 {
        Some(data) => collision_group_of(data),
        None => None,
    };
    let group2 = match user_data2 {
        Some(data) => collision_group_of(data),
        None => None,
    };
    match (group1, group2) {
        (Some(a), Some(b)) => a != b,
        _ => true,
    }
}

/// One of two colliders in contact, as the simulation knows it.
#[derive(Clone, Copy, Debug, PartialEq, Eq, Structural)]
pub struct ContactSide {
    pub collider: AlchemyRapierColliderHandle,
    pub body: Option<AlchemyRapierRigidBodyHandle>,
    /// The data of the body, where there is one.
    pub body_user_data: Option<u64>,
    pub subshape: u32,
    pub voxel: Option<VoxelCellMetadata>,
}

/// A point of a contact, as the simulation knows it.
#[derive(Clone, Copy, Debug, PartialEq, Eq, Structural)]
pub struct ContactPoint {
    /// The direction from the first collider to the second.
    pub normal: Vec2,
    pub normal_impulse: Scalar,
    pub tangent_impulse: Scalar,
    /// Where the solver has placed the contact, if it has.
    pub solver_point: Option<Vec2>,
}

/// The direction from the second collider to the first.
pub open spec fn reversed(v: Vec2) -> Vec2 {
    Vec2 { x: negated(v.x), y: negated(v.y) }
}

/// The impulse on the first body.
pub open spec fn contact_impulse(p: ContactPoint) -> Vec2 {
    let direction = reversed(p.normal);
    vec_sum(
        vec_scaled(direction, p.normal_impulse),
        vec_scaled(turned(direction), p.tangent_impulse),
    )
}

/// The impulse is too weak to speak of.
pub open spec fn negligible(a: Scalar) -> bool {
    at_most(a, Scalar { bits: NO_IMPULSE_BITS })
}

/// The host is told of the point.
pub open spec fn is_reported(p: ContactPoint) -> bool {
    let impulse = contact_impulse(p);
    &&& !(negligible(absolute(p.normal_impulse)) && negligible(absolute(p.tangent_impulse)))
    &&& norm(impulse).finite()
    &&& !negligible(norm(impulse))
    &&& p.solver_point is Some
    &&& p.solver_point->0.x.finite()
    &&& p.solver_point->0.y.finite()
    &&& impulse.x.finite()
    &&& impulse.y.finite()
}

pub open spec fn side_body_id(side: ContactSide) -> u64 {
    match side.body {
        Some(body) => packed_body(body),
        None => 0,
    }
}

pub open spec fn side_user_data(side: ContactSide) -> u64 {
    match side.body_user_data {
        Some(data) => data,
        None => 0,
    }
}

pub open spec fn side_cell(side: ContactSide) -> u32 {
    match side.voxel {
        Some(voxel) => voxel.source_cell_id,
        None => INVALID_SOURCE_CELL_ID,
    }
}

pub open spec fn side_material(side: ContactSide) -> u16 {
    match side.voxel {
        Some(voxel) => voxel.material_id,
        None => 0,
    }
}

/// What the host is told of a point.
pub open spec fn sample_of_point(
    side1: ContactSide,
    side2: ContactSide,
    p: ContactPoint,
) -> AlchemyRapierContactSample {
    AlchemyRapierContactSample {
        collider1_packed_id: packed_collider(side1.collider),
        collider2_packed_id: packed_collider(side2.collider),
        body1_packed_id: side_body_id(side1),
        body2_packed_id: side_body_id(side2),
        body1_user_data: side_user_data(side1),
        body2_user_data: side_user_data(side2),
        subshape1: side1.subshape,
        subshape2: side2.subshape,
        source_cell_id1: side_cell(side1),
        source_cell_id2: side_cell(side2),
        material_id1: side_material(side1),
        material_id2: side_material(side2),
        point: p.solver_point->0,
        normal_from_2_to_1: reversed(p.normal),
        impulse_on_body1: contact_impulse(p),
        collision_impulse: norm(contact_impulse(p)),
    }
}

fn user_data_of(side: &ContactSide) -> (r: u64)
    ensures
        r == side_user_data(*side),
{
    match side.body_user_data {
        Some(data) => data,
        None => 0,
    }
}

fn cell_of(side: &ContactSide) -> (r: u32)
    ensures
        r == side_cell(*side),
{
    match side.voxel {
        Some(voxel) => voxel.source_cell_id,
        None => INVALID_SOURCE_CELL_ID,
    }
}

fn material_of(side: &ContactSide) -> (r: u16)
    ensures
        r == side_material(*side),
{
    match side.voxel {
        Some(voxel) => voxel.material_id,
        None => 0,
    }
}

/// What the host is told of a point of contact, if anything.
pub fn contact_sample(side1: &ContactSide, side2: &ContactSide, p: &ContactPoint) -> (r: Option<
    AlchemyRapierContactSample,
>)
    ensures
        r == if is_reported(*p) {
            Some(sample_of_point(*side1, *side2, *p))
        } else {
            None
        },
{
    let none = Scalar::from_bits(NO_IMPULSE_BITS);
    if p.normal_impulse.abs().is_at_most(none) && p.tangent_impulse.abs().is_at_most(none) {
        return None;
    }
    let direction = Vec2 { x: p.normal.x.negate(), y: p.normal.y.negate() };
    let impulse = direction.scaled(p.normal_impulse).plus(
        direction.perp().scaled(p.tangent_impulse),
    );
    let collision_impulse = impulse.length();
    if !collision_impulse.is_finite() || collision_impulse.is_at_most(none) {
        return None;
    }
    let point = p.solver_point?;
    if !point.x.is_finite() || !point.y.is_finite() || !impulse.x.is_finite()
        || !impulse.y.is_finite() {
        return None;
    }
    Some(
        AlchemyRapierContactSample {
            collider1_packed_id: pack_collider_handle(side1.collider),
            collider2_packed_id: pack_collider_handle(side2.collider),
            body1_packed_id: body_packed_id(side1.body),
            body2_packed_id: body_packed_id(side2.body),
            body1_user_data: user_data_of(side1),
            body2_user_data: user_data_of(side2),
            subshape1: side1.subshape,
            subshape2: side2.subshape,
            source_cell_id1: cell_of(side1),
            source_cell_id2: cell_of(side2),
            material_id1: material_of(side1),
            material_id2: material_of(side2),
            point,
            normal_from_2_to_1: direction,
            impulse_on_body1: impulse,
            collision_impulse,
        },
    )
}

} // verus!
