//! Where the pixels of a body and the cells of terrain lie.

use crate::geometry::{cell_center, dot_product, vec_difference, GridCoord, Vec2};
use crate::host::cells::set_count;
use crate::host::cropping::{box_height, box_width, is_cropped, CroppedActor};
use crate::host::pixels::{
    body_local, bounds_of_cells, centered_origin, half_extents, lemma_place_fits,
    lemma_push_contains, pixel_boxes, VoxelRuntime,
};
use crate::host::queries::{axis_point, cast_fraction, least_gap, on_axis, CastPlan, Projection};
use crate::host::splitting::{removed_list, source_center};
use crate::host::terrain::TerrainGrid;
use crate::idmap::lookup;
use crate::ids::FxActorId;
use crate::number_laws::{
    lemma_difference_close, lemma_negated, lemma_plain_value, lemma_rounded, lemma_sum_close,
    size_of,
};
use crate::rounding::INFINITE;
use crate::scalar::{at_most, below, difference, negated, of_integer, sum, Scalar};
use vstd::arithmetic::power2::{lemma_pow2_pos, pow2};
use vstd::prelude::*;

verus! {

/// The number is finite and at most `m` from zero.
pub open spec fn near_zero(a: Scalar, m: int) -> bool {
    a.finite() && size_of(a.value()) <= m
}

proof fn lemma_sum_step(a: Scalar, b: Scalar, x: int, y: int, m: int)
    requires
        near_zero(a, x),
        near_zero(b, y),
        x + y <= 12 * m,
        m <= 0x10_0000 * pow2(149),
        0 <= m,
    ensures
        near_zero(sum(a, b), x + y + m),
        0x100_0000 * size_of(sum(a, b).value() - (a.value() + b.value())) <= 2 * (x + y),
{
    lemma_sum_close(a, b);
}

proof fn lemma_difference_step(a: Scalar, b: Scalar, x: int, y: int, m: int)
    requires
        near_zero(a, x),
        near_zero(b, y),
        x + y <= 12 * m,
        m <= 0x10_0000 * pow2(149),
        0 <= m,
    ensures
        near_zero(difference(a, b), x + y + m),
        0x100_0000 * size_of(difference(a, b).value() - (a.value() - b.value())) <= 2 * (x + y),
{
    lemma_difference_close(a, b);
}

proof fn lemma_errors_add(
    p: int,
    half: int,
    moved: int,
    body: int,
    a: int,
    b: int,
    w: int,
    c: int,
    d: int,
    back: int,
    m: int,
)
    requires
        0x100_0000 * size_of(a - (p - half)) <= 4 * m,
        0x100_0000 * size_of(b - (a + moved)) <= 8 * m,
        0x100_0000 * size_of(w - (body + b)) <= 12 * m,
        0x100_0000 * size_of(c - (w - body)) <= 16 * m,
        0x100_0000 * size_of(d - (c - moved)) <= 20 * m,
        0x100_0000 * size_of(back - (d + half)) <= 24 * m,
    ensures
        0x100_0000 * size_of(back - p) <= 84 * m,
{
}

proof fn lemma_there_and_back(p: Scalar, half: Scalar, moved: Scalar, body: Scalar, m: int)
    requires
        near_zero(p, m),
        near_zero(half, m),
        near_zero(moved, m),
        near_zero(body, m),
        m <= 0x10_0000 * pow2(149),
    ensures
        ({
            let there = sum(body, sum(difference(p, half), moved));
            let back = sum(difference(difference(there, body), moved), half);
            &&& back.finite()
            &&& 0x100_0000 * size_of(back.value() - p.value()) <= 84 * m
        }),
{
    lemma_pow2_pos(149);
    let a = difference(p, half);
    lemma_difference_step(p, half, m, m, m);
    let b = sum(a, moved);
    lemma_sum_step(a, moved, 3 * m, m, m);
    let w = sum(body, b);
    lemma_sum_step(body, b, m, 5 * m, m);
    let c = difference(w, body);
    lemma_difference_step(w, body, 7 * m, m, m);
    let d = difference(c, moved);
    lemma_difference_step(c, moved, 9 * m, m, m);
    lemma_sum_step(d, half, 11 * m, m, m);
    let back = sum(d, half);
    lemma_errors_add(
        p.value(),
        half.value(),
        moved.value(),
        body.value(),
        a.value(),
        b.value(),
        w.value(),
        c.value(),
        d.value(),
        back.value(),
        m,
    );
}

/// A point of the grid that is taken to the world and back is where it was, but for rounding.
pub proof fn lemma_world_and_grid(grid: TerrainGrid, point: Vec2, m: int)
    requires
        m <= 0x10_0000 * pow2(149),
        near_zero(point.x, m),
        near_zero(point.y, m),
        near_zero(half_extents(grid.width, grid.height, grid.pixel_size).x, m),
        near_zero(half_extents(grid.width, grid.height, grid.pixel_size).y, m),
        near_zero(grid.pixel_shape_local_origin.x, m),
        near_zero(grid.pixel_shape_local_origin.y, m),
        near_zero(grid.body_origin().x, m),
        near_zero(grid.body_origin().y, m),
    ensures
        ({
            let back = grid.to_asset(grid.to_world(point));
            &&& back.x.finite()
            &&& back.y.finite()
            &&& 0x100_0000 * size_of(back.x.value() - point.x.value()) <= 84 * m
            &&& 0x100_0000 * size_of(back.y.value() - point.y.value()) <= 84 * m
        }),
{
    let half = half_extents(grid.width, grid.height, grid.pixel_size);
    lemma_there_and_back(
        point.x,
        half.x,
        grid.pixel_shape_local_origin.x,
        grid.body_origin().x,
        m,
    );
    lemma_there_and_back(
        point.y,
        half.y,
        grid.pixel_shape_local_origin.y,
        grid.body_origin().y,
        m,
    );
}

proof fn lemma_opposites_cancel(a: Scalar, b: Scalar)
    requires
        a.finite(),
        b.finite(),
        difference(a, b).finite(),
    ensures
        sum(difference(a, b), difference(b, a)).value() == 0,
{
    lemma_negated(a);
    lemma_negated(b);
    lemma_rounded(size_of(a.value() - b.value()), 1);
    lemma_plain_value(Scalar { bits: 0 });
    lemma_negated(Scalar { bits: 0 });
    assert(negated(Scalar { bits: 0 }).value() == 0);
    let d = difference(a, b);
    let e = difference(b, a);
    lemma_negated(d);
    assert(e.value() == -d.value());
    assert(e.finite());
}

/// The origin that centers a body puts its center of mass at just the place of the body.
pub proof fn lemma_center_is_at_origin(width: u32, height: u32, size: Scalar, com: Vec2)
    requires
        ({
            let half = half_extents(width, height, size);
            &&& com.x.finite()
            &&& com.y.finite()
            &&& half.x.finite()
            &&& half.y.finite()
            &&& difference(com.x, half.x).finite()
            &&& difference(com.y, half.y).finite()
        }),
    ensures
        ({
            let at = body_local(
                width,
                height,
                size,
                centered_origin(width, height, size, com),
                com,
            );
            at.x.value() == 0 && at.y.value() == 0
        }),
{
    let half = half_extents(width, height, size);
    lemma_opposites_cancel(com.x, half.x);
    lemma_opposites_cancel(com.y, half.y);
}

/// The middle of the cell at a place of a grid, as the body sees it.
pub open spec fn box_at(width: u32, height: u32, size: Scalar, local_origin: Vec2, place: int) -> Vec2 {
    body_local(
        width,
        height,
        size,
        local_origin,
        cell_center(
            GridCoord { x: (place % width as int) as u32, y: (place / width as int) as u32 },
            size,
        ),
    )
}

/// There is one box for each occupied cell, in the order of the cells.
pub proof fn lemma_boxes_are_cells(
    width: u32,
    height: u32,
    size: Scalar,
    local_origin: Vec2,
    occupancy: Seq<bool>,
)
    ensures
        ({
            let places = Seq::new(occupancy.len(), |i: int| i).filter(|i: int| occupancy[i]);
            let boxes = pixel_boxes(
                width,
                height,
                size,
                local_origin,
                occupancy,
                occupancy.len() as int,
            );
            boxes == places.map_values(|i: int| box_at(width, height, size, local_origin, i))
        }),
{
    lemma_boxes_upto(width, height, size, local_origin, occupancy, occupancy.len() as int);
}

proof fn lemma_boxes_upto(
    width: u32,
    height: u32,
    size: Scalar,
    local_origin: Vec2,
    occupancy: Seq<bool>,
    n: int,
)
    requires
        0 <= n <= occupancy.len(),
    ensures
        pixel_boxes(width, height, size, local_origin, occupancy, n) == Seq::new(
            n as nat,
            |i: int| i,
        ).filter(|i: int| occupancy[i]).map_values(
            |i: int| box_at(width, height, size, local_origin, i),
        ),
    decreases n,
{
    reveal(Seq::filter);
    let p = |i: int| occupancy[i];
    let m = |i: int| box_at(width, height, size, local_origin, i);
    let s = Seq::new(n as nat, |i: int| i);
    if n > 0 {
        let t = Seq::new((n - 1) as nat, |i: int| i);
        lemma_boxes_upto(width, height, size, local_origin, occupancy, n - 1);
        assert(s.drop_last() =~= t);
        assert(s.last() == n - 1);
        if p(n - 1) {
            assert(t.filter(p).push(n - 1).map_values(m) =~= t.filter(p).map_values(m).push(
                m(n - 1),
            ));
        }
    } else {
        assert(s.filter(p).map_values(m) =~= Seq::<Vec2>::empty());
    }
}

/// What is taken away is just what was solid and is so no longer.
pub proof fn lemma_removed_cells(before: Seq<bool>, after: Seq<bool>, width: u32, height: u32, c: GridCoord)
    requires
        0 < width,
        before.len() == width * height,
        after.len() == before.len(),
        c.x < width,
        c.y < height,
    ensures
        removed_list(before, after, width, before.len() as int).contains(c) <==> before[c.y * width
            + c.x] && !after[c.y * width + c.x],
{
    assert(width * height <= width * u32::MAX) by (nonlinear_arith)
        requires
            0 <= height <= u32::MAX,
            0 < width,
    ;
    lemma_removed_upto(before, after, width, before.len() as int, c);
    lemma_place_fits(c.x, c.y, width, height);
}

proof fn lemma_removed_upto(before: Seq<bool>, after: Seq<bool>, width: u32, n: int, c: GridCoord)
    requires
        0 < width,
        0 <= n <= before.len(),
        after.len() == before.len(),
        before.len() <= width * u32::MAX,
        c.x < width,
    ensures
        removed_list(before, after, width, n).contains(c) <==> ({
            let place = c.y * width + c.x;
            place < n && before[place] && !after[place]
        }),
    decreases n,
{
    let place = c.y * width + c.x;
    let w = width as int;
    if n > 0 {
        lemma_removed_upto(before, after, width, n - 1, c);
        let list = removed_list(before, after, width, n - 1);
        let q = n - 1;
        vstd::arithmetic::div_mod::lemma_fundamental_div_mod(q, w);
        vstd::arithmetic::div_mod::lemma_mod_bound(q, w);
        assert(0 <= q / w <= u32::MAX) by (nonlinear_arith)
            requires
                0 <= q < w * u32::MAX,
                0 < w,
                q == w * (q / w) + q % w,
                0 <= q % w < w,
        ;
        let x = GridCoord { x: (q % w) as u32, y: (q / w) as u32 };
        assert(x == c <==> place == q) by {
            if place == q {
                vstd::arithmetic::div_mod::lemma_fundamental_div_mod_converse(
                    q,
                    w,
                    c.y as int,
                    c.x as int,
                );
            }
            if x == c {
                assert(w * (q / w) == (q / w) * w) by (nonlinear_arith);
            }
        }
        if before[q] && !after[q] {
            lemma_push_contains(list, x, c);
        }
        assert(0 <= place) by (nonlinear_arith)
            requires
                place == c.y * width + c.x,
                0 <= c.y,
                0 <= c.x,
                0 < width,
        ;
    } else {
        assert(0 <= place) by (nonlinear_arith)
            requires
                place == c.y * width + c.x,
                0 <= c.y,
                0 <= c.x,
                0 < width,
        ;
    }
}

/// The squared length of the gap that a projection leaves.
pub open spec fn gap_of(p: Projection, center: Vec2, half_height: Scalar) -> Scalar {
    let d = vec_difference(p.point, axis_point(p, center, half_height));
    dot_product(d, d)
}

/// No projection leaves a smaller gap than the one that is taken, and it is the gap of one of them.
pub proof fn lemma_gap_is_least(
    start: Vec2,
    projections: Seq<Projection>,
    center: Vec2,
    half_height: Scalar,
    n: int,
    i: int,
)
    requires
        0 <= i < n <= projections.len(),
        !gap_of(projections[i], center, half_height).nan(),
    ensures
        ({
            let best = least_gap(start, projections, center, half_height, n);
            &&& at_most(best.distance_sq, gap_of(projections[i], center, half_height))
            &&& below(best.distance_sq, Scalar { bits: INFINITE }) ==> exists|j: int|
                0 <= j < n && best.point == (#[trigger] projections[j]).point && best.axis_point
                    == axis_point(projections[j], center, half_height) && best.distance_sq == gap_of(
                    projections[j],
                    center,
                    half_height,
                )
        }),
    decreases n,
{
    lemma_gap_known(start, projections, center, half_height, n);
    let best = least_gap(start, projections, center, half_height, n - 1);
    lemma_gap_known(start, projections, center, half_height, n - 1);
    if i < n - 1 {
        lemma_gap_is_least(start, projections, center, half_height, n - 1, i);
    }
}

proof fn lemma_gap_known(
    start: Vec2,
    projections: Seq<Projection>,
    center: Vec2,
    half_height: Scalar,
    n: int,
)
    requires
        0 <= n <= projections.len(),
    ensures
        ({
            let best = least_gap(start, projections, center, half_height, n);
            &&& !best.distance_sq.nan()
            &&& best.distance_sq.place() <= INFINITE
            &&& below(best.distance_sq, Scalar { bits: INFINITE }) ==> exists|j: int|
                0 <= j < n && best.point == (#[trigger] projections[j]).point && best.axis_point
                    == axis_point(projections[j], center, half_height) && best.distance_sq == gap_of(
                    projections[j],
                    center,
                    half_height,
                )
        }),
    decreases n,
{
    if n > 0 {
        lemma_gap_known(start, projections, center, half_height, n - 1);
        let before = least_gap(start, projections, center, half_height, n - 1);
        let best = least_gap(start, projections, center, half_height, n);
        if best != before {
            assert(best.point == projections[n - 1].point);
        }
    }
}

/// However far a cast went, the share of its way that it left behind lies between none and all.
pub proof fn lemma_share_of_way(plan: CastPlan, time_of_impact: Scalar)
    requires
        !cast_fraction(plan, time_of_impact).nan(),
    ensures
        at_most(Scalar { bits: 0 }, cast_fraction(plan, time_of_impact)),
        at_most(cast_fraction(plan, time_of_impact), Scalar { bits: 0x3f80_0000 }),
{
}

proof fn lemma_centered_back(com: Scalar, least: Scalar, half: Scalar, m: int)
    requires
        near_zero(com, m),
        near_zero(least, m),
        near_zero(half, m),
        m <= 0x10_0000 * pow2(149),
    ensures
        ({
            let back = sum(least, difference(half, difference(half, difference(com, least))));
            &&& back.finite()
            &&& 0x100_0000 * size_of(back.value() - com.value()) <= 40 * m
        }),
{
    let a = difference(com, least);
    lemma_difference_step(com, least, m, m, m);
    let b = difference(half, a);
    lemma_difference_step(half, a, m, 3 * m, m);
    let c = difference(half, b);
    lemma_difference_step(half, b, m, 5 * m, m);
    lemma_sum_step(least, c, m, 7 * m, m);
    let back = sum(least, c);
    lemma_four_errors(
        com.value(),
        least.value(),
        half.value(),
        a.value(),
        b.value(),
        c.value(),
        back.value(),
        m,
    );
}

proof fn lemma_four_errors(com: int, least: int, half: int, a: int, b: int, c: int, back: int, m: int)
    requires
        0x100_0000 * size_of(a - (com - least)) <= 4 * m,
        0x100_0000 * size_of(b - (half - a)) <= 8 * m,
        0x100_0000 * size_of(c - (half - b)) <= 12 * m,
        0x100_0000 * size_of(back - (least + c)) <= 16 * m,
    ensures
        0x100_0000 * size_of(back - com) <= 40 * m,
{
}

/// The center of a piece that was cut out is, in the grid that it was cut from, the center of mass
/// of its actor, but for rounding.
pub proof fn lemma_cut_keeps_center(
    crop: CroppedActor,
    runtime: VoxelRuntime,
    actor: FxActorId,
    material_ids: Seq<u16>,
    m: int,
)
    requires
        is_cropped(crop, runtime, actor, material_ids),
        m <= 0x10_0000 * pow2(149),
        ({
            let b = bounds_of_cells(runtime.cells_of_actor(actor)->0)->0;
            let com = (lookup(runtime.family@.actors, actor.0)->0).local_com;
            let half = half_extents(
                box_width(b) as u32,
                box_height(b) as u32,
                runtime.family@.asset.voxel_size,
            );
            &&& 0 <= box_width(b) < i32::MAX
            &&& 0 <= box_height(b) < i32::MAX
            &&& b.min.x < i32::MAX
            &&& b.min.y < i32::MAX
            &&& near_zero(com.x, m)
            &&& near_zero(com.y, m)
            &&& near_zero(half.x, m)
            &&& near_zero(half.y, m)
            &&& near_zero(of_integer(b.min.x as int), m)
            &&& near_zero(of_integer(b.min.y as int), m)
        }),
    ensures
        ({
            let com = (lookup(runtime.family@.actors, actor.0)->0).local_com;
            let center = source_center(crop);
            &&& 0x100_0000 * size_of(center.x.value() - com.x.value()) <= 40 * m
            &&& 0x100_0000 * size_of(center.y.value() - com.y.value()) <= 40 * m
        }),
{
    let b = bounds_of_cells(runtime.cells_of_actor(actor)->0)->0;
    let com = (lookup(runtime.family@.actors, actor.0)->0).local_com;
    let half = half_extents(
        box_width(b) as u32,
        box_height(b) as u32,
        runtime.family@.asset.voxel_size,
    );
    assert(crop.child_width as u32 == box_width(b) as u32);
    assert(crop.child_height as u32 == box_height(b) as u32);
    assert(crop.source_min_x as int == b.min.x);
    assert(crop.source_min_y as int == b.min.y);
    lemma_centered_back(com.x, of_integer(b.min.x as int), half.x, m);
    lemma_centered_back(com.y, of_integer(b.min.y as int), half.y, m);
}

/// A height kept on the axis of a capsule lies between its ends, and stays as it is where it does
/// so already.
pub proof fn lemma_kept_on_axis(y: Scalar, center: Vec2, half_height: Scalar)
    requires
        !y.nan(),
        at_most(difference(center.y, half_height), sum(center.y, half_height)),
    ensures
        ({
            let low = difference(center.y, half_height);
            let high = sum(center.y, half_height);
            let kept = on_axis(y, center, half_height);
            &&& kept.x == center.x
            &&& at_most(low, kept.y)
            &&& at_most(kept.y, high)
            &&& at_most(low, y) && at_most(y, high) ==> kept.y.place() == y.place()
        }),
{
}

/// The number of cells that are set is the number of those that are.
pub proof fn lemma_set_cells_counted(cells: Seq<bool>)
    ensures
        set_count(cells) == cells.filter(|b: bool| b).len(),
    decreases cells.len(),
{
    reveal(Seq::filter);
    if cells.len() > 0 {
        lemma_set_cells_counted(cells.drop_last());
    }
}

} // verus!
