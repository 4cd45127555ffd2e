//! Immutable 2D boolean masks. A pattern describes which cells of a grid are
//! filled (for a piece) or permitted (for a package). It offers no mutation
//! after construction, so owners may share one freely as a read-only value.

use vstd::prelude::*;

verus! {

/// Failure of pattern construction.
#[derive(Clone, Copy, Debug, PartialEq, Eq, Structural)]
pub enum PatternError {
    /// The input rows were ragged: not all rows had the same length.
    MalformedPattern,
}

/// Immutable 2D boolean mask, stored row-major: cell (x, y) sits at flat
/// index `y * width + x`.
pub struct Pattern {
    width: u32,
    height: u32,
    cells: Vec<bool>,
}

/// The sequence of row views of a matrix of rows.
pub open spec fn row_views(rows: Seq<Vec<bool>>) -> Seq<Seq<bool>> {
    rows.map_values(|row: Vec<bool>| row@)
}

/// Every row has the length of the first: the matrix is rectangular.
pub open spec fn rectangular(rows: Seq<Seq<bool>>) -> bool {
    forall|i: int| 0 <= i < rows.len() ==> #[trigger] rows[i].len() == rows[0].len()
}

impl Pattern {
    /// Internal consistency: the flat storage holds exactly width * height cells.
    pub closed spec fn wf(self) -> bool {
        self.cells@.len() == self.width * self.height
    }

    pub closed spec fn spec_width(self) -> u32 {
        self.width
    }

    pub closed spec fn spec_height(self) -> u32 {
        self.height
    }

    /// The mask value at (x, y), for 0 <= x < width and 0 <= y < height.
    pub closed spec fn spec_at(self, x: int, y: int) -> bool {
        self.cells@[y * self.width + x]
    }

    /// This pattern holds exactly the contents of the given row matrix.
    pub open spec fn built_from(self, rows: Seq<Seq<bool>>) -> bool {
        &&& self.spec_height() == rows.len()
        &&& self.spec_width() == (if rows.len() == 0 { 0int } else { rows[0].len() as int })
        &&& forall|x: int, y: int|
            0 <= x < self.spec_width() && 0 <= y < self.spec_height() ==> #[trigger] self.spec_at(
                x,
                y,
            ) == rows[y][x]
    }

    pub fn width(&self) -> (r: u32)
        ensures
            r == self.spec_width(),
    {
        self.width
    }

    pub fn height(&self) -> (r: u32)
        ensures
            r == self.spec_height(),
    {
        self.height
    }

    /// Builds a pattern from a matrix of rows, each row listing the mask left
    /// to right, rows top to bottom. Rejects ragged input; accepts an empty
    /// matrix (a 0 x 0 pattern).
    pub fn from_grid(rows: &Vec<Vec<bool>>) -> (r: Result<Pattern, PatternError>)
        requires
            rows@.len() <= u32::MAX,
            rows@.len() > 0 ==> rows@[0]@.len() <= u32::MAX,
        ensures
            match r {
                Ok(p) => p.wf() && p.built_from(row_views(rows@)) && rectangular(row_views(rows@)),
                Err(e) => e == PatternError::MalformedPattern && !rectangular(row_views(rows@)),
            },
    {
        let height = rows.len();
        let width: usize = if height == 0 {
            0
        } else {
            rows[0].len()
        };
        let mut cells: Vec<bool> = Vec::new();
        let mut y: usize = 0;
        while y < height
            invariant
                y <= height,
                height == rows@.len(),
                height <= u32::MAX,
                width <= u32::MAX,
                height > 0 ==> width == rows@[0]@.len(),
                forall|yy: int| 0 <= yy < y ==> #[trigger] rows@[yy]@.len() == width,
                cells@.len() == y * width,
                forall|xx: int, yy: int|
                    0 <= xx < width && 0 <= yy < y ==> #[trigger] cells@[yy * width + xx]
                        == rows@[yy]@[xx],
            decreases height - y,
        {
            if rows[y].len() != width {
                proof {
                    assert(row_views(rows@)[y as int].len() != row_views(rows@)[0].len());
                }
                return Err(PatternError::MalformedPattern);
            }
            let mut x: usize = 0;
            while x < width
                invariant
                    x <= width,
                    y < height,
                    height == rows@.len(),
                    rows@[y as int]@.len() == width,
                    forall|yy: int| 0 <= yy < y ==> #[trigger] rows@[yy]@.len() == width,
                    cells@.len() == y * width + x,
                    forall|xx: int, yy: int|
                        0 <= xx < width && 0 <= yy < y ==> #[trigger] cells@[yy * width + xx]
                            == rows@[yy]@[xx],
                    forall|xx: int|
                        0 <= xx < x ==> #[trigger] cells@[y * width + xx] == rows@[y as int]@[xx],
                decreases width - x,
            {
                cells.push(rows[y][x]);
                proof {
                    assert forall|xx: int, yy: int| 0 <= xx < width && 0 <= yy < y implies #[trigger]
                        cells@[yy * width + xx] == rows@[yy]@[xx] by {
                        lemma_row_major_index_in_range(xx, yy, width as int, y as int);
                    }
                }
                x += 1;
            }
            assert((y + 1) * width == y * width + width) by (nonlinear_arith);
            y += 1;
        }
        assert(height * width == width * height) by (nonlinear_arith);
        let p = Pattern { width: width as u32, height: height as u32, cells };
        assert(p.built_from(row_views(rows@)));
        Ok(p)
    }

    /// Reads the mask at (x, y). Callers iterate within known bounds, so an
    /// out-of-range coordinate is ruled out up front rather than reported.
    pub fn get(&self, x: u32, y: u32) -> (r: bool)
        requires
            self.wf(),
            x < self.spec_width(),
            y < self.spec_height(),
        ensures
            r == self.spec_at(x as int, y as int),
    {
        let n = self.cells.len();
        proof {
            lemma_row_major_index_in_range(
                x as int,
                y as int,
                self.width as int,
                self.height as int,
            );
            assert(n == self.cells@.len());
        }
        let i: usize = (y as usize) * (self.width as usize) + (x as usize);
        self.cells[i]
    }
}

/// Row-major flattening stays within a width * height array.
pub proof fn lemma_row_major_index_in_range(x: int, y: int, width: int, height: int)
    requires
        0 <= x < width,
        0 <= y < height,
    ensures
        0 <= y * width + x < width * height,
        0 <= y * width + x < height * width,
    decreases 0int,
{
    assert(0 <= y * width + x < width * height && y * width + x < height * width)
        by (nonlinear_arith)
        requires
            0 <= x < width,
            0 <= y < height,
    ;
}

/// Law: building a pattern from a rectangular row matrix and reading every
/// cell back reproduces the matrix exactly.
pub proof fn lemma_pattern_round_trip(p: Pattern, rows: Seq<Seq<bool>>)
    requires
        p.wf(),
        p.built_from(rows),
        rectangular(rows),
    ensures
        p.spec_height() == rows.len(),
        forall|y: int| 0 <= y < rows.len() ==> #[trigger] rows[y].len() == p.spec_width(),
        forall|x: int, y: int|
            0 <= y < rows.len() && 0 <= x < rows[y].len() ==> #[trigger] p.spec_at(x, y)
                == rows[y][x],
{
    assert forall|y: int| 0 <= y < rows.len() implies #[trigger] rows[y].len()
        == p.spec_width() by {
        assert(rows[y].len() == rows[0].len());
    }
}

} // verus!
