use crate::grid::{DLAField, FieldPosition};
use crate::random::random_ratio;
use crate::stuck::isNeighbor;
use vstd::prelude::*;

verus! {

/// How many destinations a particle tries in one tick before it stays put.
pub const MOVE_ATTEMPTS: usize = 5;

/// The offset along one axis of length `len` from coordinate `c`: `+1` when
/// `forward` was drawn, else `-1`, turned inwards at an edge. Drawing again
/// until the target lies inside the grid comes to the same thing, since the
/// two axes are drawn independently. On an axis of one cell there is none.
pub open spec fn axisStep(c: int, len: int, forward: bool) -> Option<int> {
    if len <= 1 {
        None
    } else if c == 0 {
        Some(1)
    } else if c == len - 1 {
        Some(-1)
    } else if forward {
        Some(1)
    } else {
        Some(-1)
    }
}

/// The diagonal cell of a `w` by `h` grid that a particle at `(x, y)` heads
/// for after drawing `goRight` and `goDown`.
pub open spec fn candidateOn(w: int, h: int, x: int, y: int, goRight: bool, goDown: bool) -> Option<
    (int, int),
> {
    match (axisStep(x, w, goRight), axisStep(y, h, goDown)) {
        (Some(dx), Some(dy)) => Some((x + dx, y + dy)),
        _ => None,
    }
}

/// Where a particle at `(x, y)` of the `w` by `h` grid `g` goes given its
/// draws: the first candidate that is empty, or `(x, y)` itself when none is.
pub open spec fn planOn(g: Seq<Seq<FieldPosition>>, w: int, h: int, x: int, y: int, draws: Seq<(bool, bool)>) -> (int, int)
    decreases draws.len(),
{
    if draws.len() == 0 {
        (x, y)
    } else {
        match candidateOn(w, h, x, y, draws[0].0, draws[0].1) {
            None => (x, y),
            Some(c) => if g[c.0][c.1] is EMPTY {
                c
            } else {
                planOn(g, w, h, x, y, draws.drop_first())
            },
        }
    }
}

impl DLAField {
    /// The diagonal cell a particle at `(x, y)` heads for: see `candidateOn`.
    pub open spec fn candidate(&self, x: int, y: int, goRight: bool, goDown: bool) -> Option<
        (int, int),
    > {
        candidateOn(self.width(), self.height(), x, y, goRight, goDown)
    }

    /// Where a particle at `(x, y)` goes given its draws: see `planOn`.
    pub open spec fn plan(&self, x: int, y: int, draws: Seq<(bool, bool)>) -> (int, int) {
        planOn(self.cells(), self.width(), self.height(), x, y, draws)
    }

    /// Either the particle stays, or it moves to an empty diagonal neighbour.
    pub open spec fn validMove(&self, x: int, y: int, r: (int, int)) -> bool {
        r == (x, y) || (isNeighbor(x, y, r.0, r.1) && r.0 != x && r.1 != y && self.inBounds(
            r.0,
            r.1,
        ) && self.cell(r.0, r.1) is EMPTY)
    }

    /// Whatever was drawn, the planned destination is a valid move.
    pub proof fn lemma_plan_valid(&self, x: int, y: int, draws: Seq<(bool, bool)>)
        requires
            self.inBounds(x, y),
        ensures
            self.validMove(x, y, self.plan(x, y, draws)),
        decreases draws.len(),
    {
        if draws.len() > 0 {
            self.lemma_plan_valid(x, y, draws.drop_first());
        }
    }

    /// The destination for drawn directions `goRight` and `goDown`: see
    /// `candidate`.
    pub fn moveCandidate(&self, x: i32, y: i32, goRight: bool, goDown: bool) -> (r: Option<
        (i32, i32),
    >)
        requires
            self.inBounds(x as int, y as int),
            self.fitsI32(),
        ensures
            match r {
                Some((a, b)) => self.candidate(x as int, y as int, goRight, goDown) == Some(
                    (a as int, b as int),
                ),
                None => self.candidate(x as int, y as int, goRight, goDown) is None,
            },
    {
        let width = self.getWidth() as i32;
        let height = self.getHeight() as i32;
        if width <= 1 || height <= 1 {
            return None;
        }
        let dx: i32 = if x == 0 {
            1
        } else if x == width - 1 {
            -1
        } else if goRight {
            1
        } else {
            -1
        };
        let dy: i32 = if y == 0 {
            1
        } else if y == height - 1 {
            -1
        } else if goDown {
            1
        } else {
            -1
        };
        Some((x + dx, y + dy))
    }

    /// Where a particle at `(x, y)` goes given its draws: see `plan`.
    pub fn planMove(&self, x: i32, y: i32, draws: &Vec<(bool, bool)>) -> (r: (i32, i32))
        requires
            self.wf(),
            self.inBounds(x as int, y as int),
            self.fitsI32(),
        ensures
            (r.0 as int, r.1 as int) == self.plan(x as int, y as int, draws@),
    {
        let mut i: usize = 0;
        assert(draws@.subrange(0, draws@.len() as int) =~= draws@);
        while i < draws.len()
            invariant
                self.wf(),
                self.inBounds(x as int, y as int),
                self.fitsI32(),
                i <= draws@.len(),
                self.plan(x as int, y as int, draws@) == self.plan(
                    x as int,
                    y as int,
                    draws@.subrange(i as int, draws@.len() as int),
                ),
            decreases draws@.len() - i,
        {
            let ghost rest = draws@.subrange(i as int, draws@.len() as int);
            assert(rest.drop_first() =~= draws@.subrange(i + 1, draws@.len() as int));
            let (goRight, goDown) = draws[i];
            match self.moveCandidate(x, y, goRight, goDown) {
                None => {
                    return (x, y);
                },
                Some((a, b)) => {
                    if self.isEmpty(a, b) {
                        return (a, b);
                    }
                },
            }
            i = i + 1;
        }
        (x, y)
    }

    /// Draws up to `MOVE_ATTEMPTS` biased directions for the particle at
    /// `(x, y)`: right or left alike, down three times in four. The result is
    /// where `plan` sends it for those draws.
    pub fn findNextPosition(&self, x: i32, y: i32) -> (r: (i32, i32))
        requires
            self.wf(),
            self.inBounds(x as int, y as int),
            self.fitsI32(),
        ensures
            exists|draws: Seq<(bool, bool)>|
                draws.len() == MOVE_ATTEMPTS && (r.0 as int, r.1 as int) == #[trigger] self.plan(
                    x as int,
                    y as int,
                    draws,
                ),
            self.validMove(x as int, y as int, (r.0 as int, r.1 as int)),
    {
        let mut draws: Vec<(bool, bool)> = Vec::new();
        while draws.len() < MOVE_ATTEMPTS
            invariant
                draws@.len() <= MOVE_ATTEMPTS,
            decreases MOVE_ATTEMPTS - draws@.len(),
        {
            let goRight = random_ratio(1, 2);
            let goDown = random_ratio(3, 4);
            draws.push((goRight, goDown));
        }
        let r = self.planMove(x, y, &draws);
        proof {
            self.lemma_plan_valid(x as int, y as int, draws@);
        }
        r
    }
}

} // verus!
