use crate::grid::{DLAField, FieldPosition};
use vstd::prelude::*;

verus! {

/// Whether `(a, b)` is one of the eight cells around `(x, y)`.
pub open spec fn isNeighbor(x: int, y: int, a: int, b: int) -> bool {
    &&& -1 <= a - x <= 1
    &&& -1 <= b - y <= 1
    &&& !(a == x && b == y)
}

/// Some cell around `(x, y)`, inside the `w` by `h` grid `g`, is frozen.
pub open spec fn hasStuckNeighborOn(g: Seq<Seq<FieldPosition>>, w: int, h: int, x: int, y: int) -> bool {
    exists|a: int, b: int|
        isNeighbor(x, y, a, b) && 0 <= a < w && 0 <= b < h && (#[trigger] g[a][b]) is STUCK
}

/// The freezing rule on the `w` by `h` grid `g`. A frozen cell stays
/// frozen; an empty cell never is. A mobile particle freezes on the floor,
/// or, unless `shallow`, next to a frozen cell (looked at directly, without
/// applying the rule to it).
pub open spec fn stuckOn(g: Seq<Seq<FieldPosition>>, w: int, h: int, x: int, y: int, shallow: bool) -> bool {
    match g[x][y] {
        FieldPosition::EMPTY => false,
        FieldPosition::STUCK(_) => true,
        FieldPosition::OCCUPIED(_) => y == h - 1 || (!shallow && hasStuckNeighborOn(g, w, h, x, y)),
    }
}

impl DLAField {
    /// Some cell around `(x, y)`, inside the grid, is frozen.
    pub open spec fn hasStuckNeighbor(&self, x: int, y: int) -> bool {
        hasStuckNeighborOn(self.cells(), self.width(), self.height(), x, y)
    }

    /// The freezing rule on this grid: see `stuckOn`.
    pub open spec fn stuckRule(&self, x: int, y: int, shallow: bool) -> bool {
        stuckOn(self.cells(), self.width(), self.height(), x, y, shallow)
    }

    /// Whether the particle at `(x, y)` is (or is to be) immobile: see
    /// `stuckRule`. With `recursion` set the neighbours are not looked at.
    pub fn isStuck(&self, x: i32, y: i32, recursion: bool) -> (r: bool)
        requires
            self.wf(),
            self.inBounds(x as int, y as int),
        ensures
            r == self.stuckRule(x as int, y as int, recursion),
    {
        let width = self.getWidth();
        let height = self.getHeight();
        let xs = x as usize;
        let ys = y as usize;
        assert(self.cells()[xs as int] == self.positionHash@[xs as int]@);
        match &self.positionHash[xs][ys] {
            FieldPosition::EMPTY => {
                return false;
            },
            FieldPosition::STUCK(_) => {
                return true;
            },
            FieldPosition::OCCUPIED(_) => {
                if ys == height - 1 {
                    return true;
                }
            },
        }
        if recursion {
            return false;
        }
        let aLo: usize = if xs == 0 { 0 } else { xs - 1 };
        let aHi: usize = if xs + 1 < width { xs + 1 } else { xs };
        let bLo: usize = if ys == 0 { 0 } else { ys - 1 };
        let bHi: usize = if ys + 1 < height { ys + 1 } else { ys };
        let mut a: usize = aLo;
        while a <= aHi
            invariant
                self.wf(),
                aLo <= a <= aHi + 1,
                xs == x && ys == y && !recursion && ys + 1 != height,
                aLo + 1 >= xs && xs + 1 >= aHi && aLo <= xs <= aHi,
                bLo + 1 >= ys && ys + 1 >= bHi && bLo <= ys <= bHi,
                self.cell(x as int, y as int) is OCCUPIED,
                aHi < width == self.width(),
                bHi < height == self.height(),
                forall|i: int, j: int|
                    aLo <= i < a && bLo <= j <= bHi ==> !(#[trigger] self.cell(i, j) is STUCK),
            decreases aHi + 1 - a,
        {
            let mut b: usize = bLo;
            while b <= bHi
                invariant
                    self.wf(),
                    aLo <= a <= aHi,
                    bLo <= b <= bHi + 1,
                    xs == x && ys == y && !recursion && ys + 1 != height,
                    aLo + 1 >= xs && xs + 1 >= aHi && aLo <= xs <= aHi,
                    bLo + 1 >= ys && ys + 1 >= bHi && bLo <= ys <= bHi,
                    self.cell(x as int, y as int) is OCCUPIED,
                    aHi < width == self.width(),
                    bHi < height == self.height(),
                    forall|i: int, j: int|
                        aLo <= i < a && bLo <= j <= bHi ==> !(#[trigger] self.cell(i, j) is STUCK),
                    forall|j: int| bLo <= j < b ==> !(#[trigger] self.cell(a as int, j) is STUCK),
                decreases bHi + 1 - b,
            {
                assert(self.cells()[a as int] == self.positionHash@[a as int]@);
                if let FieldPosition::STUCK(_) = self.positionHash[a][b] {
                    assert(self.cell(a as int, b as int) is STUCK);
                    assert(a != xs || b != ys);
                    assert(isNeighbor(x as int, y as int, a as int, b as int));
                    return true;
                }
                b = b + 1;
            }
            a = a + 1;
        }
        assert forall|i: int, j: int|
            isNeighbor(x as int, y as int, i, j) && self.inBounds(i, j) implies !(
            #[trigger] self.cell(i, j) is STUCK) by {
            assert(aLo <= i <= aHi && bLo <= j <= bHi);
        }
        assert(!self.hasStuckNeighbor(x as int, y as int)) by {
            if self.hasStuckNeighbor(x as int, y as int) {
                let (a, b) = choose|a: int, b: int|
                    isNeighbor(x as int, y as int, a, b) && 0 <= a < self.width() && 0 <= b < self.height()
                        && (#[trigger] self.cells()[a][b]) is STUCK;
                assert(self.cell(a, b) is STUCK);
            }
        }
        false
    }

    /// A mobile particle on the floor freezes, whatever lies around it.
    pub proof fn lemma_floor_sticks(&self, x: int)
        requires
            self.inBounds(x, self.height() - 1),
            self.cell(x, self.height() - 1) is OCCUPIED,
        ensures
            self.stuckRule(x, self.height() - 1, false),
    {
    }

    /// A mobile particle with a frozen cell among its eight neighbours freezes.
    pub proof fn lemma_stuck_neighbor_sticks(&self, x: int, y: int, a: int, b: int)
        requires
            self.inBounds(x, y),
            self.cell(x, y) is OCCUPIED,
            isNeighbor(x, y, a, b),
            self.inBounds(a, b),
            self.cell(a, b) is STUCK,
        ensures
            self.stuckRule(x, y, false),
    {
    }

    /// A mobile particle above the floor whose neighbours inside the grid are
    /// all empty or mobile stays free.
    pub proof fn lemma_no_stuck_neighbor_stays_free(&self, x: int, y: int)
        requires
            self.inBounds(x, y),
            y < self.height() - 1,
            self.cell(x, y) is OCCUPIED,
            forall|a: int, b: int|
                isNeighbor(x, y, a, b) && self.inBounds(a, b) ==> !(#[trigger] self.cell(a, b) is STUCK),
        ensures
            !self.stuckRule(x, y, false),
    {
        assert(!self.hasStuckNeighbor(x, y)) by {
            if self.hasStuckNeighbor(x, y) {
                let (a, b) = choose|a: int, b: int|
                    isNeighbor(x, y, a, b) && 0 <= a < self.width() && 0 <= b < self.height()
                        && (#[trigger] self.cells()[a][b]) is STUCK;
                assert(self.cell(a, b) is STUCK);
            }
        }
    }
}

} // verus!
