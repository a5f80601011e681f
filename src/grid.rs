use vstd::prelude::*;

verus! {

/// The colour a particle is drawn with, as red, green, blue and alpha bytes.
#[derive(Clone, Copy, Debug)]
pub struct ColorizedPoint {
    pub color: [u8; 4],
}

/// The state of one lattice cell.
#[allow(non_camel_case_types)]
#[derive(Clone, Copy, Debug)]
pub enum FieldPosition {
    /// No particle.
    EMPTY,
    /// A particle that may still move.
    OCCUPIED(ColorizedPoint),
    /// A particle frozen for the rest of the run.
    STUCK(ColorizedPoint),
}

/// Why an operation on a field was refused.
#[derive(Clone, Copy, Debug, PartialEq, Eq, Structural)]
pub enum FieldError {
    /// A coordinate lies outside the grid.
    OutOfBounds,
    /// More particles were asked for than the grid has cells (or a negative number).
    InvalidConfiguration,
}

/// The lattice, stored column by column: `positionHash[x][y]` is the cell in
/// column `x` and row `y`, and row `height - 1` is the floor.
pub struct DLAField {
    pub positionHash: Vec<Vec<FieldPosition>>,
}

/// Whether a cell holds a particle, mobile or frozen.
pub open spec fn isParticle(c: FieldPosition) -> bool {
    !(c is EMPTY)
}

/// Whether a cell holds a mobile particle.
pub open spec fn isMobile(c: FieldPosition) -> bool {
    c is OCCUPIED
}

/// Whether a cell holds a frozen particle.
pub open spec fn isFrozen(c: FieldPosition) -> bool {
    c is STUCK
}

/// Selects the cells that hold a particle.
pub open spec fn particleKind() -> spec_fn(FieldPosition) -> bool {
    |c: FieldPosition| isParticle(c)
}

/// Selects the cells that hold a mobile particle.
pub open spec fn mobileKind() -> spec_fn(FieldPosition) -> bool {
    |c: FieldPosition| isMobile(c)
}

/// Selects the cells that hold a frozen particle.
pub open spec fn frozenKind() -> spec_fn(FieldPosition) -> bool {
    |c: FieldPosition| isFrozen(c)
}

/// The number of cells of a column that satisfy `p`.
pub open spec fn columnCount(col: Seq<FieldPosition>, p: spec_fn(FieldPosition) -> bool) -> nat
    decreases col.len(),
{
    if col.len() == 0 {
        0
    } else {
        columnCount(col.drop_last(), p) + if p(col.last()) { 1nat } else { 0nat }
    }
}

/// The number of cells of a whole grid that satisfy `p`.
pub open spec fn gridCount(cols: Seq<Seq<FieldPosition>>, p: spec_fn(FieldPosition) -> bool) -> nat
    decreases cols.len(),
{
    if cols.len() == 0 {
        0
    } else {
        gridCount(cols.drop_last(), p) + columnCount(cols.last(), p)
    }
}

/// Whether every column of `cols` has `height` cells.
pub open spec fn rectangular(cols: Seq<Seq<FieldPosition>>, height: int) -> bool {
    forall|x: int| 0 <= x < cols.len() ==> (#[trigger] cols[x]).len() == height
}

/// The columns of a column-major grid, as sequences of cells.
pub open spec fn columns(g: Seq<Vec<FieldPosition>>) -> Seq<Seq<FieldPosition>> {
    g.map_values(|c: Vec<FieldPosition>| c@)
}

impl DLAField {
    /// The grid as a sequence of columns.
    pub open spec fn cells(&self) -> Seq<Seq<FieldPosition>> {
        columns(self.positionHash@)
    }

    /// Number of columns.
    pub open spec fn width(&self) -> int {
        self.positionHash@.len() as int
    }

    /// Number of rows (the length of the first column; none without columns).
    pub open spec fn height(&self) -> int {
        if self.positionHash@.len() == 0 {
            0
        } else {
            self.positionHash@[0]@.len() as int
        }
    }

    /// Every column has the same length.
    pub open spec fn wf(&self) -> bool {
        rectangular(self.cells(), self.height())
    }

    /// `(x, y)` is a cell of the grid.
    pub open spec fn inBounds(&self, x: int, y: int) -> bool {
        0 <= x < self.width() && 0 <= y < self.height()
    }

    /// The cell in column `x` and row `y`.
    pub open spec fn cell(&self, x: int, y: int) -> FieldPosition {
        self.cells()[x][y]
    }

    /// Both dimensions can be written as `i32` coordinates.
    pub open spec fn fitsI32(&self) -> bool {
        self.width() <= i32::MAX && self.height() <= i32::MAX
    }

    /// Particles on the grid, mobile or frozen.
    pub open spec fn particleCount(&self) -> nat {
        gridCount(self.cells(), particleKind())
    }

    /// Mobile particles on the grid.
    pub open spec fn occupiedCount(&self) -> nat {
        gridCount(self.cells(), mobileKind())
    }

    /// Frozen particles on the grid.
    pub open spec fn stuckCount(&self) -> nat {
        gridCount(self.cells(), frozenKind())
    }

    /// Whether `g` is this grid with cell `(x, y)` replaced by `v`.
    pub open spec fn writtenAt(&self, g: &DLAField, x: int, y: int, v: FieldPosition) -> bool {
        g.cells() == self.cells().update(x, self.cells()[x].update(y, v))
    }
}

/// Replacing one cell of a column changes its count by what left and what came.
pub proof fn lemma_column_count_update(
    col: Seq<FieldPosition>,
    y: int,
    v: FieldPosition,
    p: spec_fn(FieldPosition) -> bool,
)
    requires
        0 <= y < col.len(),
    ensures
        columnCount(col.update(y, v), p) + (if p(col[y]) { 1int } else { 0int })
            == columnCount(col, p) + (if p(v) { 1int } else { 0int }),
    decreases col.len(),
{
    let u = col.update(y, v);
    if y == col.len() - 1 {
        assert(u.drop_last() =~= col.drop_last());
    } else {
        assert(u.drop_last() =~= col.drop_last().update(y, v));
        lemma_column_count_update(col.drop_last(), y, v, p);
    }
}

/// A column count never exceeds the column's length.
pub proof fn lemma_column_count_bound(col: Seq<FieldPosition>, p: spec_fn(FieldPosition) -> bool)
    ensures
        columnCount(col, p) <= col.len(),
    decreases col.len(),
{
    if col.len() > 0 {
        lemma_column_count_bound(col.drop_last(), p);
    }
}

/// A column with no cell satisfying `p` counts zero.
pub proof fn lemma_column_count_none(col: Seq<FieldPosition>, p: spec_fn(FieldPosition) -> bool)
    requires
        forall|y: int| 0 <= y < col.len() ==> !p(#[trigger] col[y]),
    ensures
        columnCount(col, p) == 0,
    decreases col.len(),
{
    if col.len() > 0 {
        lemma_column_count_none(col.drop_last(), p);
    }
}

/// Replacing one column changes the grid count by the two column counts.
pub proof fn lemma_grid_count_column(
    cols: Seq<Seq<FieldPosition>>,
    x: int,
    c: Seq<FieldPosition>,
    p: spec_fn(FieldPosition) -> bool,
)
    requires
        0 <= x < cols.len(),
    ensures
        gridCount(cols.update(x, c), p) + columnCount(cols[x], p) == gridCount(cols, p)
            + columnCount(c, p),
    decreases cols.len(),
{
    let u = cols.update(x, c);
    if x == cols.len() - 1 {
        assert(u.drop_last() =~= cols.drop_last());
    } else {
        assert(u.drop_last() =~= cols.drop_last().update(x, c));
        lemma_grid_count_column(cols.drop_last(), x, c, p);
    }
}

/// A grid count never exceeds the number of cells.
pub proof fn lemma_grid_count_bound(cols: Seq<Seq<FieldPosition>>, h: int, p: spec_fn(FieldPosition) -> bool)
    requires
        rectangular(cols, h),
    ensures
        gridCount(cols, p) <= cols.len() * h,
    decreases cols.len(),
{
    if cols.len() > 0 {
        lemma_grid_count_bound(cols.drop_last(), h, p);
        lemma_column_count_bound(cols.last(), p);
        assert(cols.len() * h == (cols.len() - 1) * h + h) by (nonlinear_arith);
    }
}

/// A grid with no cell satisfying `p` counts zero.
pub proof fn lemma_grid_count_none(cols: Seq<Seq<FieldPosition>>, p: spec_fn(FieldPosition) -> bool)
    requires
        forall|x: int, y: int| 0 <= x < cols.len() && 0 <= y < cols[x].len() ==> !p(#[trigger] cols[x][y]),
    ensures
        gridCount(cols, p) == 0,
    decreases cols.len(),
{
    if cols.len() > 0 {
        lemma_grid_count_none(cols.drop_last(), p);
        let last = cols.last();
        assert forall|y: int| 0 <= y < last.len() implies !p(#[trigger] last[y]) by {
            assert(last[y] == cols[cols.len() - 1][y]);
        }
        lemma_column_count_none(last, p);
    }
}

/// A column count cannot fall when every cell satisfying `p` still does.
pub proof fn lemma_column_count_grows(c0: Seq<FieldPosition>, c1: Seq<FieldPosition>, p: spec_fn(FieldPosition) -> bool)
    requires
        c0.len() == c1.len(),
        forall|y: int| 0 <= y < c0.len() && p(#[trigger] c0[y]) ==> p(c1[y]),
    ensures
        columnCount(c0, p) <= columnCount(c1, p),
    decreases c0.len(),
{
    if c0.len() > 0 {
        lemma_column_count_grows(c0.drop_last(), c1.drop_last(), p);
    }
}

/// A grid count cannot fall when every cell satisfying `p` still does.
pub proof fn lemma_grid_count_grows(g0: Seq<Seq<FieldPosition>>, g1: Seq<Seq<FieldPosition>>, p: spec_fn(FieldPosition) -> bool)
    requires
        g0.len() == g1.len(),
        forall|x: int| 0 <= x < g0.len() ==> (#[trigger] g0[x]).len() == g1[x].len(),
        forall|x: int, y: int| 0 <= x < g0.len() && 0 <= y < g0[x].len() && p(#[trigger] g0[x][y]) ==> p(g1[x][y]),
    ensures
        gridCount(g0, p) <= gridCount(g1, p),
    decreases g0.len(),
{
    if g0.len() > 0 {
        let n = g0.len() - 1;
        lemma_grid_count_grows(g0.drop_last(), g1.drop_last(), p);
        assert(g0[n].len() == g1[n].len());
        assert forall|y: int| 0 <= y < g0[n].len() && p(#[trigger] g0[n][y]) implies p(g1[n][y]) by {}
        lemma_column_count_grows(g0.last(), g1.last(), p);
    }
}

/// Writing one cell changes a count by what left and what came.
pub proof fn lemma_grid_count_write(
    cols: Seq<Seq<FieldPosition>>,
    x: int,
    y: int,
    v: FieldPosition,
    p: spec_fn(FieldPosition) -> bool,
)
    requires
        0 <= x < cols.len(),
        0 <= y < cols[x].len(),
    ensures
        gridCount(cols.update(x, cols[x].update(y, v)), p) + (if p(cols[x][y]) { 1int } else { 0int })
            == gridCount(cols, p) + (if p(v) { 1int } else { 0int }),
{
    lemma_grid_count_column(cols, x, cols[x].update(y, v), p);
    lemma_column_count_update(cols[x], y, v, p);
}

impl DLAField {
    /// Number of columns.
    pub fn getWidth(&self) -> (r: usize)
        ensures
            r == self.width(),
    {
        self.positionHash.len()
    }

    /// Number of rows; a grid without columns has none.
    pub fn getHeight(&self) -> (r: usize)
        ensures
            r == self.height(),
    {
        if self.positionHash.len() == 0 {
            0
        } else {
            self.positionHash[0].len()
        }
    }

    /// A grid of `width` columns of `height` empty cells.
    pub fn generateEmptyPositionHash(width: usize, height: usize) -> (r: Vec<Vec<FieldPosition>>)
        ensures
            r@.len() == width,
            rectangular(columns(r@), height as int),
            forall|x: int, y: int|
                0 <= x < width && 0 <= y < height ==> (#[trigger] columns(r@)[x][y]) is EMPTY,
    {
        let mut cols: Vec<Vec<FieldPosition>> = Vec::new();
        let mut x: usize = 0;
        while x < width
            invariant
                x <= width,
                cols@.len() == x,
                rectangular(columns(cols@), height as int),
                forall|a: int, b: int|
                    0 <= a < x && 0 <= b < height ==> (#[trigger] columns(cols@)[a][b]) is EMPTY,
            decreases width - x,
        {
            let mut col: Vec<FieldPosition> = Vec::new();
            let mut y: usize = 0;
            while y < height
                invariant
                    y <= height,
                    col@.len() == y,
                    forall|b: int| 0 <= b < y ==> (#[trigger] col@[b]) is EMPTY,
                decreases height - y,
            {
                col.push(FieldPosition::EMPTY);
                y = y + 1;
            }
            let ghost before = cols@;
            cols.push(col);
            assert(columns(cols@) =~= columns(before).push(col@));
            x = x + 1;
        }
        cols
    }

    /// Whether cell `(x, y)` of a column-major grid holds a particle.
    pub fn isPositionOccupied(positionHash: &Vec<Vec<FieldPosition>>, x: i32, y: i32) -> (r: bool)
        requires
            0 <= x < positionHash@.len(),
            0 <= y < positionHash@[x as int]@.len(),
        ensures
            r == isParticle(positionHash@[x as int]@[y as int]),
    {
        match &positionHash[x as usize][y as usize] {
            FieldPosition::OCCUPIED(_) => true,
            FieldPosition::STUCK(_) => true,
            FieldPosition::EMPTY => false,
        }
    }

    /// Whether cell `(x, y)` holds no particle.
    pub fn isEmpty(&self, x: i32, y: i32) -> (r: bool)
        requires
            self.wf(),
            self.inBounds(x as int, y as int),
        ensures
            r == (self.cell(x as int, y as int) is EMPTY),
    {
        if let FieldPosition::EMPTY = self.positionHash[x as usize][y as usize] {
            return true;
        }
        false
    }

    /// The cell at `(x, y)`.
    pub fn getCell(&self, x: usize, y: usize) -> (r: Result<FieldPosition, FieldError>)
        requires
            self.wf(),
        ensures
            self.inBounds(x as int, y as int) ==> r == Ok::<FieldPosition, FieldError>(
                self.cell(x as int, y as int),
            ),
            !self.inBounds(x as int, y as int) ==> r == Err::<FieldPosition, FieldError>(
                FieldError::OutOfBounds,
            ),
    {
        if x < self.getWidth() && y < self.getHeight() {
            Ok(self.positionHash[x][y])
        } else {
            Err(FieldError::OutOfBounds)
        }
    }

    /// Overwrites the cell at `(x, y)` with `v`, touching nothing else.
    pub fn setCell(&mut self, x: usize, y: usize, v: FieldPosition) -> (r: Result<(), FieldError>)
        requires
            old(self).wf(),
        ensures
            final(self).wf(),
            old(self).inBounds(x as int, y as int) ==> r is Ok && old(self).writtenAt(
                final(self),
                x as int,
                y as int,
                v,
            ),
            !old(self).inBounds(x as int, y as int) ==> r == Err::<(), FieldError>(
                FieldError::OutOfBounds,
            ) && final(self).positionHash@ == old(self).positionHash@,
    {
        if x < self.getWidth() && y < self.getHeight() {
            self.write(x, y, v);
            Ok(())
        } else {
            Err(FieldError::OutOfBounds)
        }
    }

    /// Overwrites cell `(x, y)`, which must lie inside the grid.
    pub(crate) fn write(&mut self, x: usize, y: usize, v: FieldPosition)
        requires
            old(self).wf(),
            old(self).inBounds(x as int, y as int),
        ensures
            final(self).wf(),
            final(self).width() == old(self).width(),
            final(self).height() == old(self).height(),
            final(self).fitsI32() == old(self).fitsI32(),
            old(self).writtenAt(final(self), x as int, y as int, v),
            forall|a: int, b: int|
                #![trigger final(self).cell(a, b)]
                final(self).inBounds(a, b) ==> final(self).cell(a, b) == if a == x && b == y {
                    v
                } else {
                    old(self).cell(a, b)
                },
    {
        assert(self.cells()[x as int] == self.positionHash@[x as int]@);
        self.positionHash[x][y] = v;
        assert(self.cells() =~~= old(self).cells().update(
            x as int,
            old(self).cells()[x as int].update(y as int, v),
        ));
    }
}

} // verus!
