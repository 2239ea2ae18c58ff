//! Which cells of a grid are occupied.

use crate::errors::ValidationError;
use crate::geometry::GridCoord;
use vstd::prelude::*;
use vstd::string::*;

verus! {

/// A grid of cells, row by row.
#[derive(Debug, PartialEq)]
pub struct DenseOccupancy {
    pub width: u32,
    pub height: u32,
    pub cells: Vec<bool>,
}

pub ghost struct OccupancyModel {
    pub width: u32,
    pub height: u32,
    pub cells: Seq<bool>,
}

impl View for DenseOccupancy {
    type V = OccupancyModel;

    open spec fn view(&self) -> OccupancyModel {
        OccupancyModel { width: self.width, height: self.height, cells: self.cells@ }
    }
}

impl OccupancyModel {
    /// There is one cell for each coordinate.
    pub open spec fn wf(self) -> bool {
        self.cells.len() == self.width * self.height
    }

    pub open spec fn has(self, coord: GridCoord) -> bool {
        coord.x < self.width && coord.y < self.height
    }

    /// The place of a cell in the row-by-row order.
    pub open spec fn place(self, coord: GridCoord) -> int {
        coord.y * self.width + coord.x
    }

    /// The cell at a place of the row-by-row order.
    pub open spec fn coord_at(self, i: int) -> GridCoord {
        GridCoord { x: (i % self.width as int) as u32, y: (i / self.width as int) as u32 }
    }

    pub open spec fn occupied(self, coord: GridCoord) -> bool {
        self.has(coord) && self.cells[self.place(coord)]
    }

    /// The occupied ones of the first `n` cells.
    pub open spec fn occupied_list(self, n: int) -> Seq<GridCoord>
        decreases n,
    {
        if n <= 0 {
            Seq::empty()
        } else if self.cells[n - 1] {
            self.occupied_list(n - 1).push(self.coord_at(n - 1))
        } else {
            self.occupied_list(n - 1)
        }
    }
}

/// The places of cells are in range and tell them apart.
pub proof fn lemma_place(m: OccupancyModel, coord: GridCoord)
    requires
        m.wf(),
        m.has(coord),
    ensures
        0 <= m.place(coord) < m.cells.len(),
        m.coord_at(m.place(coord)) == coord,
{
    let w = m.width as int;
    let i = m.place(coord);
    assert(0 <= coord.y * w && coord.y * w + w <= m.height * w) by (nonlinear_arith)
        requires
            0 <= coord.y < m.height,
            w > 0,
    ;
    assert(m.width * m.height == m.height * w) by (nonlinear_arith)
        requires
            w == m.width,
    ;
    vstd::arithmetic::div_mod::lemma_fundamental_div_mod_converse(
        i,
        w,
        coord.y as int,
        coord.x as int,
    );
}

/// Each place is that of a cell of the grid.
pub proof fn lemma_coord_at(m: OccupancyModel, i: int)
    requires
        m.wf(),
        0 <= i < m.cells.len(),
    ensures
        m.has(m.coord_at(i)),
        m.place(m.coord_at(i)) == i,
{
    let w = m.width as int;
    assert(w > 0) by (nonlinear_arith)
        requires
            i < m.width * m.height,
            0 <= i,
            w == m.width,
            0 <= m.width,
            0 <= m.height,
    ;
    vstd::arithmetic::div_mod::lemma_fundamental_div_mod(i, w);
    vstd::arithmetic::div_mod::lemma_mod_bound(i, w);
    let y = i / w;
    assert(0 <= y < m.height) by (nonlinear_arith)
        requires
            0 <= i < w * m.height,
            i == w * y + i % w,
            0 <= i % w < w,
            w > 0,
    ;
    assert(y * w == w * y) by (nonlinear_arith);
}

/// What a byte of a row stands for.
pub open spec fn cell_of_byte(b: u8) -> Option<bool> {
    if b == 0x23 || b == 0x31 || b == 0x58 {
        Some(true)
    } else if b == 0x2e || b == 0x30 || b == 0x20 {
        Some(false)
    } else {
        None
    }
}

/// The first byte from `j` on that stands for no cell.
pub open spec fn first_invalid(row: Seq<u8>, j: int) -> Option<u8>
    decreases row.len() - j,
{
    if j >= row.len() || j < 0 {
        None
    } else if cell_of_byte(row[j]) is None {
        Some(row[j])
    } else {
        first_invalid(row, j + 1)
    }
}

/// What is wrong with the first bad row from `i` on.
pub open spec fn rows_error(rows: Seq<Seq<u8>>, width: int, i: int) -> Option<ValidationError>
    decreases rows.len() - i,
{
    if i >= rows.len() || i < 0 {
        None
    } else if rows[i].len() != width {
        Some(ValidationError::RaggedRows)
    } else {
        match first_invalid(rows[i], 0) {
            Some(b) => Some(ValidationError::InvalidOccupancyByte(b)),
            None => rows_error(rows, width, i + 1),
        }
    }
}

pub open spec fn row_cells(row: Seq<u8>) -> Seq<bool> {
    row.map_values(|b: u8| cell_of_byte(b) == Some(true))
}

/// The cells of the first `n` rows.
pub open spec fn rows_cells(rows: Seq<Seq<u8>>, n: int) -> Seq<bool>
    decreases n,
{
    if n <= 0 {
        Seq::empty()
    } else {
        rows_cells(rows, n - 1) + row_cells(rows[n - 1])
    }
}

/// The bytes of each row.
pub open spec fn row_bytes(rows: Seq<&str>) -> Seq<Seq<u8>> {
    rows.map_values(|row: &str| row.spec_bytes())
}

/// The width of the grid that the rows describe.
pub open spec fn rows_width(rows: Seq<Seq<u8>>) -> int {
    if rows.len() == 0 {
        0
    } else {
        rows[0].len() as int
    }
}

impl DenseOccupancy {
    pub fn new(width: u32, height: u32, cells: Vec<bool>) -> (r: Result<Self, ValidationError>)
        requires
            width * height <= usize::MAX,
        ensures
            match r {
                Ok(o) => cells@.len() == width * height && o@ == (OccupancyModel {
                    width,
                    height,
                    cells: cells@,
                }) && o@.wf(),
                Err(e) => cells@.len() != width * height && e
                    == (ValidationError::GridSizeMismatch {
                    expected: (width * height) as usize,
                    actual: cells@.len() as usize,
                }),
            },
    {
        let expected: usize = width as usize * height as usize;
        if cells.len() != expected {
            return Err(ValidationError::GridSizeMismatch { expected, actual: cells.len() });
        }
        Ok(DenseOccupancy { width, height, cells })
    }

    pub fn from_rows(rows: &[&str]) -> (r: Result<Self, ValidationError>)
        requires
            rows.len() <= u32::MAX,
            rows_width(row_bytes(rows@)) <= u32::MAX,
            rows_width(row_bytes(rows@)) * rows.len() <= usize::MAX,
            forall|i: int| 0 <= i < rows.len() ==> (#[trigger] rows[i]).spec_bytes().len() <= u32::MAX,
        ensures
            match r {
                Ok(o) => rows_error(row_bytes(rows@), rows_width(row_bytes(rows@)), 0) is None
                    && o@.wf() && o@ == (OccupancyModel {
                    width: rows_width(row_bytes(rows@)) as u32,
                    height: rows.len() as u32,
                    cells: rows_cells(row_bytes(rows@), rows.len() as int),
                }),
                Err(e) => rows_error(row_bytes(rows@), rows_width(row_bytes(rows@)), 0) == Some(e),
            },
    {
        let ghost bytes = row_bytes(rows@);
        let height: u32 = rows.len() as u32;
        let width: u32 = if rows.len() == 0 {
            0
        } else {
            rows[0].as_bytes().len() as u32
        };
        let mut cells: Vec<bool> = Vec::new();
        let mut i: usize = 0;
        assert(width as int == rows_width(bytes));
        while i < rows.len()
            invariant
                i <= rows.len() <= u32::MAX,
                bytes == row_bytes(rows@),
                width as int == rows_width(bytes),
                cells@ == rows_cells(bytes, i as int),
                cells@.len() == i * width,
                rows_error(bytes, width as int, 0) == rows_error(bytes, width as int, i as int),
                forall|i: int|
                    0 <= i < rows.len() ==> (#[trigger] rows[i]).spec_bytes().len() <= u32::MAX,
            decreases rows.len() - i,
        {
            let row = rows[i].as_bytes();
            assert(row@ == bytes[i as int]);
            assert(rows[i as int].spec_bytes().len() <= u32::MAX);
            if row.len() as u32 != width {
                return Err(ValidationError::RaggedRows);
            }
            let ghost before = cells@;
            let mut j: usize = 0;
            while j < row.len()
                invariant
                    j <= row.len(),
                    i < rows.len(),
                    row@ == bytes[i as int],
                    row.len() == width,
                    width as int == rows_width(bytes),
                    bytes == row_bytes(rows@),
                    cells@ == before + row_cells(row@.take(j as int)),
                    first_invalid(row@, 0) == first_invalid(row@, j as int),
                    rows_error(bytes, width as int, 0) == rows_error(
                        bytes,
                        width as int,
                        i as int,
                    ),
                decreases row.len() - j,
            {
                let byte = row[j];
                if byte == 0x23 || byte == 0x31 || byte == 0x58 {
                    cells.push(true);
                } else if byte == 0x2e || byte == 0x30 || byte == 0x20 {
                    cells.push(false);
                } else {
                    return Err(ValidationError::InvalidOccupancyByte(byte));
                }
                proof {
                    assert(row_cells(row@.take(j + 1)) =~= row_cells(row@.take(j as int)).push(
                        cell_of_byte(byte) == Some(true),
                    ));
                }
                j = j + 1;
            }
            proof {
                assert(row@.take(row.len() as int) =~= row@);
                assert(first_invalid(row@, 0) is None);
                assert((i + 1) * width == i * width + width) by (nonlinear_arith);
            }
            i = i + 1;
        }
        proof {
            assert(cells@.len() == width * height) by (nonlinear_arith)
                requires
                    cells@.len() == i * width,
                    i == height,
            ;
            assert(width * height == rows_width(bytes) * rows.len());
        }
        Self::new(width, height, cells)
    }

    pub fn width(&self) -> (r: u32)
        ensures
            r == self@.width,
    {
        self.width
    }

    pub fn height(&self) -> (r: u32)
        ensures
            r == self@.height,
    {
        self.height
    }

    pub fn contains(&self, coord: GridCoord) -> (r: bool)
        ensures
            r == self@.has(coord),
    {
        coord.x < self.width && coord.y < self.height
    }

    pub fn index(&self, coord: GridCoord) -> (r: usize)
        requires
            self@.wf(),
            self@.has(coord),
        ensures
            r == self@.place(coord),
            r < self.cells.len(),
    {
        let count: usize = self.cells.len();
        proof {
            lemma_place(self@, coord);
            assert(self@.place(coord) < count);
            assert(coord.y * self.width <= self@.place(coord));
            assert(coord.y * self.width >= 0) by (nonlinear_arith)
                requires
                    coord.y >= 0,
                    self.width >= 0,
            ;
        }
        coord.y as usize * self.width as usize + coord.x as usize
    }

    pub fn is_occupied(&self, coord: GridCoord) -> (r: bool)
        requires
            self@.wf(),
        ensures
            r == self@.occupied(coord),
    {
        self.contains(coord) && self.cells[self.index(coord)]
    }

    pub fn occupied_voxels(&self) -> (r: Vec<GridCoord>)
        requires
            self@.wf(),
        ensures
            r@ == self@.occupied_list(self@.cells.len() as int),
    {
        let mut out: Vec<GridCoord> = Vec::new();
        let mut i: usize = 0;
        while i < self.cells.len()
            invariant
                i <= self.cells.len(),
                self@.wf(),
                out@ == self@.occupied_list(i as int),
            decreases self.cells.len() - i,
        {
            proof {
                lemma_coord_at(self@, i as int);
            }
            if self.cells[i] {
                let w = self.width as usize;
                out.push(GridCoord::new((i % w) as u32, (i / w) as u32));
            }
            i = i + 1;
        }
        out
    }

    pub fn cell_count(&self) -> (r: usize)
        ensures
            r == self@.cells.len(),
    {
        self.cells.len()
    }

    pub fn index_of(&self, coord: GridCoord) -> (r: Option<usize>)
        requires
            self@.wf(),
        ensures
            match r {
                Some(i) => self@.has(coord) && i == self@.place(coord),
                None => !self@.has(coord),
            },
    {
        if self.contains(coord) {
            Some(self.index(coord))
        } else {
            None
        }
    }

    pub fn cells(&self) -> (r: &[bool])
        ensures
            r@ == self@.cells,
    {
        self.cells.as_slice()
    }
}

impl Clone for DenseOccupancy {
    fn clone(&self) -> (r: Self)
        ensures
            r@ == self@,
    {
        let cells = self.cells.clone();
        assert(cells@ =~= self.cells@);
        DenseOccupancy { width: self.width, height: self.height, cells }
    }
}

/// A cell is listed as occupied just when it is, and cells are listed in the row-by-row order.
pub proof fn lemma_occupied_list(m: OccupancyModel, n: int)
    requires
        m.wf(),
        0 <= n <= m.cells.len(),
    ensures
        forall|c: GridCoord|
            #[trigger] m.occupied_list(n).contains(c) <==> m.occupied(c) && m.place(c) < n,
        forall|i: int, j: int|
            0 <= i < j < m.occupied_list(n).len() ==> m.place(#[trigger] m.occupied_list(n)[i])
                < m.place(#[trigger] m.occupied_list(n)[j]),
    decreases n,
{
    if n > 0 {
        lemma_occupied_list(m, n - 1);
        lemma_coord_at(m, n - 1);
        let before = m.occupied_list(n - 1);
        let after = m.occupied_list(n);
        let last = m.coord_at(n - 1);
        assert forall|c: GridCoord| #[trigger] after.contains(c) <==> m.occupied(c) && m.place(c)
            < n by {
            assert(before.contains(c) <==> m.occupied(c) && m.place(c) < n - 1);
            if m.occupied(c) {
                lemma_place(m, c);
                if m.place(c) == n - 1 {
                    assert(c == last);
                    assert(after[after.len() - 1] == c);
                }
            }
            if before.contains(c) {
                let w = choose|w: int| 0 <= w < before.len() && before[w] == c;
                assert(after[w] == c);
            }
            if after.contains(c) && !before.contains(c) {
                let w = choose|w: int| 0 <= w < after.len() && after[w] == c;
                if w < before.len() {
                    assert(before[w] == c);
                }
                assert(c == last);
            }
        }
        assert forall|i: int, j: int| 0 <= i < j < after.len() implies m.place(
            #[trigger] after[i],
        ) < m.place(#[trigger] after[j]) by {
            if j < before.len() {
                assert(m.place(before[i]) < m.place(before[j]));
            } else {
                assert(before.contains(before[i]));
            }
        }
    }
}

} // verus!
