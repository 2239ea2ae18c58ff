//! Checking the cell tables that the host hands over.

use crate::geometry::Vec2;
use crate::hash::{FNV_OFFSET, FNV_PRIME};
use crate::host::status::AlchemyRapierStatus;
use crate::order::list_of;
use crate::scalar::{below, Scalar};
use vstd::prelude::*;

verus! {

/// A voxel body as the host describes it. Tables that the host leaves out are empty.
#[derive(Debug)]
pub struct AlchemyFxVoxelDestructibleDesc {
    pub family_id: u32,
    pub width: u32,
    pub height: u32,
    pub voxel_size: Scalar,
    pub occupancy_words: Vec<u64>,
    pub fracture_material_ids: Vec<u16>,
    pub contact_material_ids: Vec<u16>,
    pub external_ids: Vec<u32>,
}

/// A pixel body as the host describes it. Tables that the host leaves out are empty.
#[derive(Debug)]
pub struct AlchemyRapierPixelRigidbodyDesc {
    pub width: i32,
    pub height: i32,
    pub pixel_size: Scalar,
    pub local_origin: Vec2,
    pub topology_revision: u64,
    pub topology_version: u32,
    pub update_kind: i32,
    pub occupancy_words: Vec<u64>,
    pub material_ids: Vec<u16>,
    pub support_mask: Vec<u8>,
}

/// A voxel body with one entry for each cell, ready for authoring.
#[derive(Debug)]
pub struct VoxelAuthoringInput {
    pub width: u32,
    pub height: u32,
    pub voxel_size: Scalar,
    pub occupancy: Vec<bool>,
    pub fracture_material: Vec<u16>,
    pub contact_material: Vec<u16>,
    pub external_id: Vec<u32>,
}

/// The tables of a pixel body with one entry for each cell. The support mask is empty where the
/// host gives none.
#[derive(Debug)]
pub struct PixelPayload {
    pub occupancy: Vec<bool>,
    pub material_ids: Vec<u16>,
    pub support_mask: Vec<u8>,
    pub solid_count: usize,
}

/// The bit of a word.
pub open spec fn bit_of(word: u64, i: int) -> bool {
    (word >> (i as u64)) & 1 != 0
}

/// The cell is marked in the words, 64 cells to a word, the lowest bit first. A cell beyond the
/// last word is not.
pub open spec fn marked(words: Seq<u64>, cell: int) -> bool {
    cell / 64 < words.len() && bit_of(words[cell / 64], cell % 64)
}

/// One entry for each cell.
pub open spec fn cells_of_words(words: Seq<u64>, count: int) -> Seq<bool> {
    Seq::new(count as nat, |i: int| marked(words, i))
}

/// The number of cells that are set.
pub open spec fn set_count(cells: Seq<bool>) -> int
    decreases cells.len(),
{
    if cells.len() == 0 {
        0
    } else {
        set_count(cells.drop_last()) + if cells.last() {
            1int
        } else {
            0
        }
    }
}

/// Cells numbered by their places; numbers stay at the greatest one.
pub open spec fn numbered_cells(count: int) -> Seq<u32> {
    Seq::new(
        count as nat,
        |i: int|
            if i < u32::MAX {
                i as u32
            } else {
                u32::MAX
            },
    )
}

/// A table with an entry for each cell: as given, or filled where nothing is given.
pub open spec fn dense<T>(values: Seq<T>, filler: Seq<T>) -> Seq<T> {
    if values.len() == 0 {
        filler
    } else {
        values.take(filler.len() as int)
    }
}

/// The table is given but ends before the last cell.
pub open spec fn falls_short<T>(values: Seq<T>, count: int) -> bool {
    0 < values.len() < count
}

/// The number of words for so many cells.
pub open spec fn word_count(cells: int) -> int {
    (cells + 63) / 64
}

/// The table of a pixel body: as given where it reaches the last cell.
pub open spec fn covering<T>(values: Seq<T>, filler: Seq<T>, count: int) -> Seq<T> {
    if values.len() >= count {
        values.take(count)
    } else {
        filler
    }
}

/// A size that can be used: finite and above zero.
pub open spec fn positive(a: Scalar) -> bool {
    a.finite() && below(Scalar { bits: 0 }, a)
}

/// The number of cells of a grid; a grid without cells is refused.
pub fn fx_cell_count(width: u32, height: u32) -> (r: Result<usize, AlchemyRapierStatus>)
    ensures
        r == if width == 0 || height == 0 || width * height > usize::MAX {
            Err::<usize, AlchemyRapierStatus>(AlchemyRapierStatus::InvalidArgument)
        } else {
            Ok((width * height) as usize)
        },
{
    if width == 0 || height == 0 {
        return Err(AlchemyRapierStatus::InvalidArgument);
    }
    assert(0 < width * height <= 0xffff_ffff * 0xffff_ffff) by (nonlinear_arith)
        requires
            0 < width <= 0xffff_ffff,
            0 < height <= 0xffff_ffff,
    ;
    let count: u64 = width as u64 * height as u64;
    if count > usize::MAX as u64 {
        return Err(AlchemyRapierStatus::InvalidArgument);
    }
    Ok(count as usize)
}

/// The first `count` entries of a table.
pub(crate) fn leading<T: Copy>(values: &[T], count: usize) -> (r: Vec<T>)
    requires
        count <= values.len(),
    ensures
        r@ == values@.take(count as int),
{
    let mut r: Vec<T> = Vec::new();
    let mut i: usize = 0;
    while i < count
        invariant
            i <= count <= values.len(),
            r@ == values@.take(i as int),
        decreases count - i,
    {
        r.push(values[i]);
        assert(values@.take(i as int).push(values@[i as int]) =~= values@.take(i + 1));
        i = i + 1;
    }
    r
}

/// The same value for each cell.
pub(crate) fn filled<T: Copy>(value: T, count: usize) -> (r: Vec<T>)
    ensures
        r@ == Seq::new(count as nat, |i: int| value),
{
    let mut r: Vec<T> = Vec::new();
    let mut i: usize = 0;
    while i < count
        invariant
            i <= count,
            r@ =~= Seq::new(i as nat, |j: int| value),
        decreases count - i,
    {
        r.push(value);
        i = i + 1;
    }
    r
}

/// Numbers for an entry of each cell, the fallback everywhere where none are given.
pub fn dense_u16_from_ffi(values: &[u16], cell_count: usize, fallback: u16) -> (r: Result<
    Vec<u16>,
    AlchemyRapierStatus,
>)
    ensures
        match r {
            Ok(v) => !falls_short(values@, cell_count as int) && v@ == dense(
                values@,
                Seq::new(cell_count as nat, |i: int| fallback),
            ),
            Err(e) => falls_short(values@, cell_count as int) && e
                == AlchemyRapierStatus::InvalidArgument,
        },
{
    if values.len() == 0 {
        return Ok(filled(fallback, cell_count));
    }
    if values.len() < cell_count {
        return Err(AlchemyRapierStatus::InvalidArgument);
    }
    Ok(leading(values, cell_count))
}

/// Each cell numbered by its place.
pub fn numbered(cell_count: usize) -> (r: Vec<u32>)
    ensures
        r@ == numbered_cells(cell_count as int),
{
    let mut r: Vec<u32> = Vec::new();
    let mut i: usize = 0;
    while i < cell_count
        invariant
            i <= cell_count,
            r@ =~= numbered_cells(i as int),
        decreases cell_count - i,
    {
        if i < u32::MAX as usize {
            r.push(i as u32);
        } else {
            r.push(u32::MAX);
        }
        i = i + 1;
    }
    r
}

/// Numbers for an entry of each cell, its place where none are given.
pub fn dense_u32_from_ffi(values: &[u32], cell_count: usize) -> (r: Result<
    Vec<u32>,
    AlchemyRapierStatus,
>)
    ensures
        match r {
            Ok(v) => !falls_short(values@, cell_count as int) && v@ == dense(
                values@,
                numbered_cells(cell_count as int),
            ),
            Err(e) => falls_short(values@, cell_count as int) && e
                == AlchemyRapierStatus::InvalidArgument,
        },
{
    if values.len() == 0 {
        return Ok(numbered(cell_count));
    }
    if values.len() < cell_count {
        return Err(AlchemyRapierStatus::InvalidArgument);
    }
    Ok(leading(values, cell_count))
}

/// Whether a cell is marked in the words.
pub fn is_marked(words: &[u64], cell: usize) -> (r: bool)
    ensures
        r == marked(words@, cell as int),
{
    let word: usize = cell / 64;
    let bit: u64 = (cell % 64) as u64;
    word < words.len() && (words[word] >> bit) & 1 != 0
}

/// The cells of a grid from their words.
pub fn occupancy_from_words(width: u32, height: u32, words: &[u64]) -> (r: Vec<bool>)
    requires
        width * height <= usize::MAX,
    ensures
        r@ == cells_of_words(words@, width * height),
{
    assert(0 <= width * height) by (nonlinear_arith)
        requires
            0 <= width,
            0 <= height,
    ;
    let count: usize = width as usize * height as usize;
    let mut r: Vec<bool> = Vec::new();
    let mut i: usize = 0;
    while i < count
        invariant
            i <= count,
            r@ =~= cells_of_words(words@, i as int),
        decreases count - i,
    {
        r.push(is_marked(words, i));
        i = i + 1;
    }
    r
}

/// The number of cells that are set.
pub fn count_set(cells: &[bool]) -> (r: usize)
    ensures
        r == set_count(cells@),
        r <= cells.len(),
        (r == 0) == forall|i: int| 0 <= i < cells.len() ==> !cells[i],
{
    let mut r: usize = 0;
    let mut i: usize = 0;
    while i < cells.len()
        invariant
            r <= i <= cells.len(),
            r == set_count(cells@.take(i as int)),
            (r == 0) == forall|j: int| 0 <= j < i ==> !cells[j],
        decreases cells.len() - i,
    {
        assert(cells@.take(i + 1).drop_last() =~= cells@.take(i as int));
        if cells[i] {
            r = r + 1;
        }
        i = i + 1;
    }
    assert(cells@.take(i as int) =~= cells@);
    r
}

/// Why a voxel body is refused: its voxel size cannot be used, it has no cells, its words or
/// tables fall short, or nothing is occupied.
pub open spec fn destructible_refused(desc: AlchemyFxVoxelDestructibleDesc) -> bool {
    let count = desc.width * desc.height;
    ||| !positive(desc.voxel_size)
    ||| count == 0
    ||| count > usize::MAX
    ||| desc.occupancy_words@.len() < word_count(count)
    ||| forall|i: int| 0 <= i < count ==> !#[trigger] marked(desc.occupancy_words@, i)
    ||| falls_short(desc.fracture_material_ids@, count)
    ||| falls_short(desc.contact_material_ids@, count)
    ||| falls_short(desc.external_ids@, count)
}

/// The tables for authoring: materials default to zero, contact materials to the fracture
/// materials, external ids to the places of the cells.
pub fn voxel_input_from_desc(desc: &AlchemyFxVoxelDestructibleDesc) -> (r: Result<
    VoxelAuthoringInput,
    AlchemyRapierStatus,
>)
    ensures
        match r {
            Ok(input) => {
                let count = desc.width * desc.height;
                let materials = dense(
                    desc.fracture_material_ids@,
                    Seq::new(count as nat, |i: int| 0u16),
                );
                &&& !destructible_refused(*desc)
                &&& input.width == desc.width
                &&& input.height == desc.height
                &&& input.voxel_size == desc.voxel_size
                &&& input.occupancy@ == cells_of_words(desc.occupancy_words@, count)
                &&& input.fracture_material@ == materials
                &&& input.contact_material@ == dense(desc.contact_material_ids@, materials)
                &&& input.external_id@ == dense(desc.external_ids@, numbered_cells(count))
            },
            Err(e) => destructible_refused(*desc) && e == AlchemyRapierStatus::InvalidArgument,
        },
{
    if !desc.voxel_size.is_finite() || !Scalar::from_bits(0).is_below(desc.voxel_size) {
        return Err(AlchemyRapierStatus::InvalidArgument);
    }
    proof {
        assert(desc.width * desc.height == 0 <==> desc.width == 0 || desc.height == 0)
            by (nonlinear_arith)
            requires
                0 <= desc.width,
                0 <= desc.height,
        ;
    }
    let cell_count = fx_cell_count(desc.width, desc.height)?;
    let expected: usize = words_for(cell_count);
    if desc.occupancy_words.len() < expected {
        return Err(AlchemyRapierStatus::InvalidArgument);
    }
    let occupancy = occupancy_from_words(desc.width, desc.height, desc.occupancy_words.as_slice());
    if count_set(occupancy.as_slice()) == 0 {
        proof {
            assert forall|i: int| 0 <= i < cell_count implies !#[trigger] marked(
                desc.occupancy_words@,
                i,
            ) by {
                assert(!occupancy@[i]);
            }
        }
        return Err(AlchemyRapierStatus::InvalidArgument);
    }
    proof {
        let i = choose|i: int| 0 <= i < occupancy.len() && occupancy@[i];
        assert(marked(desc.occupancy_words@, i));
    }
    let fracture_material = dense_u16_from_ffi(
        desc.fracture_material_ids.as_slice(),
        cell_count,
        0,
    )?;
    let contact_material = if desc.contact_material_ids.len() == 0 {
        list_of(fracture_material.as_slice())
    } else {
        dense_u16_from_ffi(desc.contact_material_ids.as_slice(), cell_count, 0)?
    };
    let external_id = dense_u32_from_ffi(desc.external_ids.as_slice(), cell_count)?;
    Ok(
        VoxelAuthoringInput {
            width: desc.width,
            height: desc.height,
            voxel_size: desc.voxel_size,
            occupancy,
            fracture_material,
            contact_material,
            external_id,
        },
    )
}

/// The number of words for so many cells.
pub fn words_for(cells: usize) -> (r: usize)
    ensures
        r == word_count(cells as int),
{
    cells / 64 + if cells % 64 == 0 {
        0
    } else {
        1
    }
}

/// Why a pixel body is refused: it has no cells, its pixel size or origin cannot be used, its
/// words fall short, or nothing is solid.
pub open spec fn pixels_refused(desc: AlchemyRapierPixelRigidbodyDesc) -> bool {
    let count = desc.width * desc.height;
    ||| desc.width <= 0
    ||| desc.height <= 0
    ||| !positive(desc.pixel_size)
    ||| !desc.local_origin.x.finite()
    ||| !desc.local_origin.y.finite()
    ||| desc.occupancy_words@.len() < word_count(count)
    ||| forall|i: int| 0 <= i < count ==> !#[trigger] marked(desc.occupancy_words@, i)
}

/// The tables of a pixel body: materials default to zero and the support mask to none, also
/// where the given table falls short.
pub fn pixel_desc_payload(desc: &AlchemyRapierPixelRigidbodyDesc) -> (r: Result<
    PixelPayload,
    AlchemyRapierStatus,
>)
    requires
        desc.width > 0 && desc.height > 0 ==> desc.width * desc.height <= usize::MAX,
    ensures
        match r {
            Ok(payload) => {
                let count = desc.width * desc.height;
                &&& !pixels_refused(*desc)
                &&& payload.occupancy@ == cells_of_words(desc.occupancy_words@, count)
                &&& payload.material_ids@ == covering(
                    desc.material_ids@,
                    Seq::new(count as nat, |i: int| 0u16),
                    count,
                )
                &&& payload.support_mask@ == covering(desc.support_mask@, Seq::empty(), count)
                &&& payload.solid_count == set_count(payload.occupancy@)
                &&& payload.solid_count > 0
            },
            Err(e) => pixels_refused(*desc) && e == AlchemyRapierStatus::InvalidArgument,
        },
{
    if desc.width <= 0 || desc.height <= 0 {
        return Err(AlchemyRapierStatus::InvalidArgument);
    }
    if !desc.pixel_size.is_finite() || !Scalar::from_bits(0).is_below(desc.pixel_size) {
        return Err(AlchemyRapierStatus::InvalidArgument);
    }
    if !desc.local_origin.x.is_finite() || !desc.local_origin.y.is_finite() {
        return Err(AlchemyRapierStatus::InvalidArgument);
    }
    let width: u32 = desc.width as u32;
    let height: u32 = desc.height as u32;
    assert(0 < width * height) by (nonlinear_arith)
        requires
            0 < width,
            0 < height,
    ;
    let cell_count: usize = width as usize * height as usize;
    if desc.occupancy_words.len() < words_for(cell_count) {
        return Err(AlchemyRapierStatus::InvalidArgument);
    }
    let occupancy = occupancy_from_words(width, height, desc.occupancy_words.as_slice());
    let solid_count = count_set(occupancy.as_slice());
    if solid_count == 0 {
        proof {
            assert forall|i: int| 0 <= i < cell_count implies !#[trigger] marked(
                desc.occupancy_words@,
                i,
            ) by {
                assert(!occupancy@[i]);
            }
        }
        return Err(AlchemyRapierStatus::InvalidArgument);
    }
    proof {
        let i = choose|i: int| 0 <= i < occupancy.len() && occupancy@[i];
        assert(marked(desc.occupancy_words@, i));
    }
    let material_ids = if desc.material_ids.len() >= cell_count {
        leading(desc.material_ids.as_slice(), cell_count)
    } else {
        filled(0u16, cell_count)
    };
    let support_mask = if desc.support_mask.len() >= cell_count {
        leading(desc.support_mask.as_slice(), cell_count)
    } else {
        Vec::new()
    };
    Ok(PixelPayload { occupancy, material_ids, support_mask, solid_count })
}

/// The tables for authoring a pixel body: both materials are the given ones, and cells are
/// numbered by their places.
pub fn pixel_input_from_desc(desc: &AlchemyRapierPixelRigidbodyDesc) -> (r: Result<
    (VoxelAuthoringInput, PixelPayload),
    AlchemyRapierStatus,
>)
    requires
        desc.width > 0 && desc.height > 0 ==> desc.width * desc.height <= usize::MAX,
    ensures
        match r {
            Ok((input, payload)) => {
                let count = desc.width * desc.height;
                let materials = covering(
                    desc.material_ids@,
                    Seq::new(count as nat, |i: int| 0u16),
                    count,
                );
                &&& !pixels_refused(*desc)
                &&& input.width == desc.width
                &&& input.height == desc.height
                &&& input.voxel_size == desc.pixel_size
                &&& input.occupancy@ == cells_of_words(desc.occupancy_words@, count)
                &&& input.fracture_material@ == materials
                &&& input.contact_material@ == materials
                &&& input.external_id@ == numbered_cells(count)
                &&& payload.occupancy@ == input.occupancy@
                &&& payload.material_ids@ == materials
                &&& payload.support_mask@ == covering(desc.support_mask@, Seq::empty(), count)
                &&& payload.solid_count == set_count(input.occupancy@)
            },
            Err(e) => pixels_refused(*desc) && e == AlchemyRapierStatus::InvalidArgument,
        },
{
    let payload = pixel_desc_payload(desc)?;
    let input = VoxelAuthoringInput {
        width: desc.width as u32,
        height: desc.height as u32,
        voxel_size: desc.pixel_size,
        occupancy: list_of(payload.occupancy.as_slice()),
        fracture_material: list_of(payload.material_ids.as_slice()),
        contact_material: list_of(payload.material_ids.as_slice()),
        external_id: numbered(payload.occupancy.len()),
    };
    Ok((input, payload))
}

/// The hash of material numbers.
pub open spec fn hashed_materials(material_ids: Seq<u16>) -> u64
    decreases material_ids.len(),
{
    if material_ids.len() == 0 {
        FNV_OFFSET
    } else {
        (hashed_materials(material_ids.drop_last()) ^ material_ids.last() as u64).wrapping_mul(
            FNV_PRIME,
        )
    }
}

pub fn material_hash(material_ids: &[u16]) -> (r: u64)
    ensures
        r == hashed_materials(material_ids@),
{
    let mut r: u64 = FNV_OFFSET;
    let mut i: usize = 0;
    while i < material_ids.len()
        invariant
            i <= material_ids.len(),
            r == hashed_materials(material_ids@.take(i as int)),
        decreases material_ids.len() - i,
    {
        assert(material_ids@.take(i + 1).drop_last() =~= material_ids@.take(i as int));
        r = (r ^ material_ids[i] as u64).wrapping_mul(FNV_PRIME);
        i = i + 1;
    }
    assert(material_ids@.take(i as int) =~= material_ids@);
    r
}

} // verus!
