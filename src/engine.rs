use crate::grid::{
    columnCount,
    frozenKind,
    gridCount,
    lemma_column_count_bound,
    lemma_grid_count_bound,
    lemma_grid_count_grows,
    lemma_grid_count_none,
    lemma_grid_count_write,
    mobileKind,
    particleKind,
    rectangular,
    ColorizedPoint,
    DLAField,
    FieldError,
    FieldPosition,
};
use crate::motion::{planOn, MOVE_ATTEMPTS};
use crate::random::random_below;
use crate::stuck::{hasStuckNeighborOn, isNeighbor, stuckOn};
use vstd::prelude::*;

verus! {

/// What a cell becomes when frozen in place: a mobile particle turns into a
/// frozen one of the same colour, anything else stays as it is.
pub open spec fn frozen(c: FieldPosition) -> FieldPosition {
    match c {
        FieldPosition::OCCUPIED(p) => FieldPosition::STUCK(p),
        _ => c,
    }
}

/// The colour of a freshly seeded particle: opaque red.
pub open spec fn seedColor() -> Seq<u8> {
    seq![255u8, 0u8, 0u8, 255u8]
}

impl DLAField {
    /// Seeds `numPoints` mobile particles on distinct cells of an empty grid
    /// of `width` columns and `height` rows, every free cell being equally
    /// likely for each one in turn. Fails when the count is negative or
    /// exceeds the number of cells.
    pub fn new(numPoints: i32, width: usize, height: usize) -> (r: Result<DLAField, FieldError>)
        ensures
            r is Err <==> (numPoints < 0 || numPoints > width * height),
            match r {
                Ok(f) => {
                    &&& f.wf()
                    &&& f.width() == width
                    &&& width > 0 ==> f.height() == height
                    &&& f.occupiedCount() == numPoints
                    &&& f.particleCount() == numPoints
                    &&& f.stuckCount() == 0
                    &&& forall|a: int, b: int|
                        #![trigger f.cell(a, b)]
                        f.inBounds(a, b) ==> match f.cell(a, b) {
                            FieldPosition::EMPTY => true,
                            FieldPosition::OCCUPIED(p) => p.color@ == seedColor(),
                            FieldPosition::STUCK(_) => false,
                        }
                },
                Err(e) => e == FieldError::InvalidConfiguration,
            },
    {
        if numPoints < 0 {
            return Err(FieldError::InvalidConfiguration);
        }
        let n = numPoints as usize;
        match width.checked_mul(height) {
            Some(cells) => {
                if n > cells {
                    return Err(FieldError::InvalidConfiguration);
                }
            },
            None => {},
        }
        let mut field = DLAField { positionHash: DLAField::generateEmptyPositionHash(width, height) };
        proof {
            if width > 0 {
                assert(field.cells()[0] == field.positionHash@[0]@);
            }
            lemma_grid_count_none(field.cells(), particleKind());
            lemma_grid_count_none(field.cells(), mobileKind());
            lemma_grid_count_none(field.cells(), frozenKind());
        }
        let mut free = field.allCoordinates();
        let mut placed: usize = 0;
        while placed < n
            invariant
                field.wf(),
                field.width() == width,
                width > 0 ==> field.height() == height,
                placed <= n,
                n <= width * height,
                free@.len() + placed == width * height,
                free@.no_duplicates(),
                forall|i: int|
                    0 <= i < free@.len() ==> field.inBounds(free@[i].0 as int, free@[i].1 as int)
                        && field.cell(free@[i].0 as int, free@[i].1 as int) is EMPTY,
                field.particleCount() == placed,
                field.occupiedCount() == placed,
                field.stuckCount() == 0,
                forall|a: int, b: int|
                    #![trigger field.cell(a, b)]
                    field.inBounds(a, b) ==> match field.cell(a, b) {
                        FieldPosition::EMPTY => true,
                        FieldPosition::OCCUPIED(p) => p.color@ == seedColor(),
                        FieldPosition::STUCK(_) => false,
                    },
            decreases n - placed,
        {
            let ghost before = free@;
            let ghost start = field.cells();
            let k = random_below(free.len());
            let (a, b) = free.swap_remove(k);
            let point = ColorizedPoint { color: [255, 0, 0, 255] };
            assert(point.color@ =~= seedColor());
            field.write(a, b, FieldPosition::OCCUPIED(point));
            proof {
                lemma_grid_count_write(start, a as int, b as int, FieldPosition::OCCUPIED(point), particleKind());
                lemma_grid_count_write(start, a as int, b as int, FieldPosition::OCCUPIED(point), mobileKind());
                lemma_grid_count_write(start, a as int, b as int, FieldPosition::OCCUPIED(point), frozenKind());
                assert forall|i: int| 0 <= i < free@.len() implies field.inBounds(free@[i].0 as int, free@[i].1 as int)
                        && field.cell(free@[i].0 as int, free@[i].1 as int) is EMPTY by {
                    let j = if i == k { before.len() - 1 } else { i };
                    assert(free@[i] == before[j]);
                    assert(j != k);
                }
                assert forall|i: int, j: int| 0 <= i < free@.len() && 0 <= j < free@.len() && i != j implies free@[i] != free@[j] by {
                    let i0 = if i == k { before.len() - 1 } else { i };
                    let j0 = if j == k { before.len() - 1 } else { j };
                    assert(free@[i] == before[i0]);
                    assert(free@[j] == before[j0]);
                }
            }
            placed = placed + 1;
        }
        Ok(field)
    }

    /// Every coordinate of the grid, each once.
    fn allCoordinates(&self) -> (r: Vec<(usize, usize)>)
        requires
            self.wf(),
        ensures
            r@.len() == self.width() * self.height(),
            r@.no_duplicates(),
            forall|i: int| 0 <= i < r@.len() ==> self.inBounds(r@[i].0 as int, r@[i].1 as int),
    {
        let width = self.getWidth();
        let height = self.getHeight();
        let mut r: Vec<(usize, usize)> = Vec::new();
        let mut x: usize = 0;
        while x < width
            invariant
                width == self.width(),
                height == self.height(),
                x <= width,
                r@.len() == x * height,
                r@.no_duplicates(),
                forall|i: int| 0 <= i < r@.len() ==> (#[trigger] r@[i]).0 < x && r@[i].1 < height,
            decreases width - x,
        {
            let mut y: usize = 0;
            while y < height
                invariant
                    width == self.width(),
                    height == self.height(),
                    x < width,
                    y <= height,
                    r@.len() == x * height + y,
                    r@.no_duplicates(),
                    forall|i: int|
                        0 <= i < r@.len() ==> (#[trigger] r@[i]).0 < x && r@[i].1 < height || r@[i].0
                            == x && r@[i].1 < y,
                decreases height - y,
            {
                r.push((x, y));
                y = y + 1;
            }
            assert((x + 1) * height == x * height + height) by (nonlinear_arith);
            x = x + 1;
        }
        r
    }

    /// The number of frozen particles.
    pub fn getStuckCount(&self) -> (r: u32)
        requires
            self.wf(),
            self.width() * self.height() <= u32::MAX,
        ensures
            r == self.stuckCount(),
    {
        self.countCells(true)
    }

    /// The number of mobile particles.
    pub fn getOccupiedCount(&self) -> (r: u32)
        requires
            self.wf(),
            self.width() * self.height() <= u32::MAX,
        ensures
            r == self.occupiedCount(),
    {
        self.countCells(false)
    }

    /// Counts the frozen cells, or the mobile ones.
    fn countCells(&self, frozenOnes: bool) -> (r: u32)
        requires
            self.wf(),
            self.width() * self.height() <= u32::MAX,
        ensures
            r == gridCount(self.cells(), if frozenOnes { frozenKind() } else { mobileKind() }),
    {
        let ghost p = if frozenOnes { frozenKind() } else { mobileKind() };
        let ghost cols = self.cells();
        let width = self.getWidth();
        let height = self.getHeight();
        let mut cnt: u32 = 0;
        let mut x: usize = 0;
        while x < width
            invariant
                self.wf(),
                cols == self.cells(),
                p == if frozenOnes { frozenKind() } else { mobileKind() },
                width == self.width(),
                height == self.height(),
                width * height <= u32::MAX,
                x <= width,
                cnt == gridCount(cols.take(x as int), p),
            decreases width - x,
        {
            proof {
                assert(rectangular(cols.take(x as int), height as int));
                lemma_grid_count_bound(cols.take(x as int), height as int, p);
                assert(x * height + height <= width * height) by (nonlinear_arith)
                    requires x < width;
                assert(cols[x as int] == self.positionHash@[x as int]@);
                assert(cols[x as int].take(0) =~= Seq::<FieldPosition>::empty());
            }
            let mut y: usize = 0;
            while y < height
                invariant
                    self.wf(),
                    cols == self.cells(),
                    p == if frozenOnes { frozenKind() } else { mobileKind() },
                    width == self.width(),
                    height == self.height(),
                    x < width,
                    y <= height,
                    cols[x as int] == self.positionHash@[x as int]@,
                    gridCount(cols.take(x as int), p) + height <= u32::MAX,
                    cnt == gridCount(cols.take(x as int), p) + columnCount(cols[x as int].take(y as int), p),
                decreases height - y,
            {
                proof {
                    let col = cols[x as int];
                    assert(col.take(y + 1).drop_last() =~= col.take(y as int));
                    lemma_column_count_bound(col.take(y as int), p);
                }
                let hit = match self.positionHash[x][y] {
                    FieldPosition::STUCK(_) => frozenOnes,
                    FieldPosition::OCCUPIED(_) => !frozenOnes,
                    FieldPosition::EMPTY => false,
                };
                if hit {
                    cnt = cnt + 1;
                }
                y = y + 1;
            }
            proof {
                assert(cols[x as int].take(height as int) =~= cols[x as int]);
                assert(cols.take(x + 1).drop_last() =~= cols.take(x as int));
            }
            x = x + 1;
        }
        proof {
            assert(cols.take(width as int) =~= cols);
        }
        cnt
    }

    /// No cell holds a mobile particle.
    pub open spec fn settled(&self) -> bool {
        forall|a: int, b: int| self.inBounds(a, b) ==> !(#[trigger] self.cell(a, b) is OCCUPIED)
    }

    /// Every mobile particle meets the freezing rule.
    pub open spec fn noneFree(&self) -> bool {
        forall|a: int, b: int|
            self.inBounds(a, b) && (#[trigger] self.cell(a, b)) is OCCUPIED ==> self.stuckRule(
                a,
                b,
                false,
            )
    }

    /// One tick of the simulation: `sweep` for some draws. Columns are swept
    /// left to right, and each column from the floor upwards; every change is
    /// seen by the cells visited after it. A mobile particle that `isStuck`
    /// freezes in place, keeping its colour; any other one goes where
    /// `findNextPosition` sends it. Returns `true` (converged) when no
    /// particle was left free to move: then the tick only froze particles,
    /// and none is mobile any more.
    pub fn nextState(&mut self) -> (r: bool)
        requires
            old(self).wf(),
            old(self).fitsI32(),
        ensures
            final(self).wf(),
            final(self).fitsI32(),
            final(self).width() == old(self).width(),
            final(self).height() == old(self).height(),
            exists|draws: Seq<Seq<Seq<(bool, bool)>>>|
                drawsFor(draws, old(self).width(), old(self).height()) && #[trigger] sweep(
                    old(self).cells(),
                    old(self).width(),
                    old(self).height(),
                    draws,
                ) == (final(self).cells(), r),
            final(self).particleCount() == old(self).particleCount(),
            final(self).stuckCount() >= old(self).stuckCount(),
            forall|a: int, b: int|
                #![trigger old(self).cell(a, b)]
                old(self).inBounds(a, b) && old(self).cell(a, b) is STUCK ==> final(self).cell(a, b)
                    == old(self).cell(a, b),
            forall|a: int, b: int|
                #![trigger old(self).cell(a, b)]
                old(self).inBounds(a, b) && old(self).cell(a, b) is OCCUPIED && old(self).stuckRule(
                    a,
                    b,
                    false,
                ) ==> final(self).cell(a, b) == frozen(old(self).cell(a, b)),
            forall|a: int, b: int|
                #![trigger final(self).cell(a, b)]
                old(self).inBounds(a, b) && final(self).cell(a, b) is STUCK && !(old(self).cell(
                    a,
                    b,
                ) is STUCK) ==> b == old(self).height() - 1 || final(self).hasStuckNeighbor(a, b),
            old(self).noneFree() ==> r,
            r ==> forall|a: int, b: int|
                #![trigger final(self).cell(a, b)]
                old(self).inBounds(a, b) ==> final(self).cell(a, b) == frozen(old(self).cell(a, b)),
            r ==> final(self).settled(),
            old(self).settled() ==> r && final(self).cells() == old(self).cells(),
    {
        let width = self.getWidth();
        let height = self.getHeight();
        let ghost g0 = self.cells();
        let ghost w = self.width();
        let ghost h = self.height();
        let ghost mut done: Seq<Seq<Seq<(bool, bool)>>> = Seq::empty();
        let mut isDone = true;
        let mut x: usize = 0;
        while x < width
            invariant
                self.wf(),
                self.fitsI32(),
                g0 == old(self).cells(),
                w == width == self.width() == old(self).width(),
                h == height == self.height() == old(self).height(),
                x <= width,
                done.len() == x,
                forall|c: int| 0 <= c < x ==> drawsForColumn(#[trigger] done[c], h),
                sweepCols(g0, w, h, done) == (self.cells(), !isDone),
                self.particleCount() == old(self).particleCount(),
                forall|a: int, b: int|
                    #![trigger old(self).cell(a, b)]
                    old(self).inBounds(a, b) && old(self).cell(a, b) is STUCK ==> self.cell(a, b)
                        == old(self).cell(a, b),
                forall|a: int, b: int|
                    #![trigger old(self).cell(a, b)]
                    old(self).inBounds(a, b) && old(self).cell(a, b) is OCCUPIED && old(
                        self,
                    ).stuckRule(a, b, false) ==> self.cell(a, b) == if a < x {
                        frozen(old(self).cell(a, b))
                    } else {
                        old(self).cell(a, b)
                    },
                isDone ==> forall|a: int, b: int|
                    #![trigger self.cell(a, b)]
                    old(self).inBounds(a, b) ==> self.cell(a, b) == if a < x {
                        frozen(old(self).cell(a, b))
                    } else {
                        old(self).cell(a, b)
                    },
                !isDone ==> !old(self).settled(),
                forall|a: int, b: int|
                    #![trigger self.cell(a, b)]
                    old(self).inBounds(a, b) && self.cell(a, b) is STUCK && !(old(self).cell(a, b) is STUCK)
                        ==> b == h - 1 || self.hasStuckNeighbor(a, b),
                old(self).noneFree() ==> isDone,
            decreases width - x,
        {
            let ghost mut cur: Seq<Seq<(bool, bool)>> = Seq::empty();
            let ghost before = sweepCols(g0, w, h, done);
            let mut yi: usize = height;
            while yi > 0
                invariant
                    self.wf(),
                    self.fitsI32(),
                    g0 == old(self).cells(),
                    w == width == self.width() == old(self).width(),
                    h == height == self.height() == old(self).height(),
                    x < width,
                    yi <= height,
                    done.len() == x,
                    forall|c: int| 0 <= c < x ==> drawsForColumn(#[trigger] done[c], h),
                    before == sweepCols(g0, w, h, done),
                    cur.len() == h - yi,
                    forall|k: int| 0 <= k < cur.len() ==> (#[trigger] cur[k]).len() == MOVE_ATTEMPTS,
                    sweepRows(before.0, w, h, x as int, cur).0 == self.cells(),
                    isDone == !(before.1 || sweepRows(before.0, w, h, x as int, cur).1),
                    self.particleCount() == old(self).particleCount(),
                    forall|a: int, b: int|
                        #![trigger old(self).cell(a, b)]
                        old(self).inBounds(a, b) && old(self).cell(a, b) is STUCK ==> self.cell(a, b)
                            == old(self).cell(a, b),
                    forall|a: int, b: int|
                        #![trigger old(self).cell(a, b)]
                        old(self).inBounds(a, b) && old(self).cell(a, b) is OCCUPIED && old(
                            self,
                        ).stuckRule(a, b, false) ==> self.cell(a, b) == if a < x || (a == x && b
                            >= yi) {
                            frozen(old(self).cell(a, b))
                        } else {
                            old(self).cell(a, b)
                        },
                    isDone ==> forall|a: int, b: int|
                        #![trigger self.cell(a, b)]
                        old(self).inBounds(a, b) ==> self.cell(a, b) == if a < x || (a == x && b
                            >= yi) {
                            frozen(old(self).cell(a, b))
                        } else {
                            old(self).cell(a, b)
                        },
                    !isDone ==> !old(self).settled(),
                    forall|a: int, b: int|
                        #![trigger self.cell(a, b)]
                        old(self).inBounds(a, b) && self.cell(a, b) is STUCK && !(old(self).cell(a, b) is STUCK)
                            ==> b == h - 1 || self.hasStuckNeighbor(a, b),
                    old(self).noneFree() ==> isDone,
                decreases yi,
            {
                let y = yi - 1;
                let ghost pre = self.cells();
                proof {
                    assert forall|a: int, b: int|
                        0 <= a < w && 0 <= b < h && (#[trigger] g0[a][b]) is STUCK implies pre[a][b]
                            == g0[a][b] by {
                        assert(old(self).cell(a, b) == g0[a][b]);
                        assert(self.cell(a, b) == pre[a][b]);
                    }
                    if old(self).cell(x as int, y as int) is OCCUPIED && old(self).stuckRule(
                        x as int,
                        y as int,
                        false,
                    ) {
                        lemma_still_stuck(g0, pre, w, h, x as int, y as int);
                    }
                    if isDone && old(self).noneFree() && old(self).cell(x as int, y as int) is OCCUPIED {
                        lemma_still_stuck(g0, pre, w, h, x as int, y as int);
                    }
                }
                assert forall|a: int, b: int|
                    old(self).inBounds(a, b) && (#[trigger] pre[a][b]) is STUCK && !(old(self).cell(a, b) is STUCK)
                    implies b == h - 1 || hasStuckNeighborOn(pre, w, h, a, b) by {
                    assert(self.cell(a, b) == pre[a][b]);
                }
                let free = self.advanceCell(x, y);
                if free {
                    isDone = false;
                }
                proof {
                    let post = self.cells();
                    assert forall|a: int, b: int|
                        0 <= a < w && 0 <= b < h && (#[trigger] pre[a][b]) is STUCK implies post[a][b]
                            == pre[a][b] by {
                        assert(self.cell(a, b) == post[a][b]);
                    }
                    assert forall|a: int, b: int|
                        old(self).inBounds(a, b) && #[trigger] self.cell(a, b) is STUCK && !(old(self).cell(a, b) is STUCK)
                        implies b == h - 1 || self.hasStuckNeighbor(a, b) by {
                        if a == x && b == y {
                            if b != h - 1 {
                                assert(pre[a][b] is STUCK || stuckOn(pre, w, h, a, b, false));
                                lemma_neighbor_kept(pre, post, w, h, a, b);
                            }
                        } else {
                            assert(pre[a][b] is STUCK);
                            if b != h - 1 {
                                lemma_neighbor_kept(pre, post, w, h, a, b);
                            }
                        }
                    }
                    let d = choose|d: Seq<(bool, bool)>|
                        d.len() == MOVE_ATTEMPTS && #[trigger] visitOn(pre, w, h, x as int, y as int, d)
                            == (self.cells(), free);
                    let next = cur.push(d);
                    assert(next.drop_last() =~= cur);
                    cur = next;
                }
                yi = yi - 1;
            }
            proof {
                let next = done.push(cur);
                assert(next.drop_last() =~= done);
                done = next;
            }
            x = x + 1;
        }
        proof {
            assert(drawsFor(done, w, h));
            assert(sweep(g0, w, h, done) == (self.cells(), isDone));
            let g1 = self.cells();
            assert forall|a: int| 0 <= a < g0.len() implies (#[trigger] g0[a]).len() == g1[a].len() by {}
            assert forall|a: int, b: int|
                0 <= a < g0.len() && 0 <= b < g0[a].len() && frozenKind()(#[trigger] g0[a][b]) implies frozenKind()(g1[a][b]) by {
                assert(old(self).cell(a, b) == g0[a][b]);
                assert(self.cell(a, b) == g1[a][b]);
            }
            lemma_grid_count_grows(g0, g1, frozenKind());
            if old(self).settled() {
                assert forall|a: int| 0 <= a < width implies #[trigger] self.cells()[a]
                    == old(self).cells()[a] by {
                    assert forall|b: int| 0 <= b < height implies self.cells()[a][b]
                        == old(self).cells()[a][b] by {
                        assert(old(self).inBounds(a, b));
                        assert(self.cell(a, b) == frozen(old(self).cell(a, b)));
                    }
                    assert(self.cells()[a] =~= old(self).cells()[a]);
                }
                assert(self.cells() =~= old(self).cells());
            }
        }
        isDone
    }

    /// The part of a tick that concerns cell `(x, y)`: `visitOn` for some
    /// draws. Returns whether it held a particle free to move.
    fn advanceCell(&mut self, x: usize, y: usize) -> (free: bool)
        requires
            old(self).wf(),
            old(self).fitsI32(),
            old(self).inBounds(x as int, y as int),
        ensures
            final(self).wf(),
            final(self).fitsI32(),
            final(self).width() == old(self).width(),
            final(self).height() == old(self).height(),
            exists|d: Seq<(bool, bool)>|
                d.len() == MOVE_ATTEMPTS && #[trigger] visitOn(
                    old(self).cells(),
                    old(self).width(),
                    old(self).height(),
                    x as int,
                    y as int,
                    d,
                ) == (final(self).cells(), free),
            final(self).particleCount() == old(self).particleCount(),
            forall|a: int, b: int|
                #![trigger old(self).cell(a, b)]
                old(self).inBounds(a, b) && old(self).cell(a, b) is STUCK ==> final(self).cell(a, b)
                    == old(self).cell(a, b),
            forall|a: int, b: int|
                #![trigger old(self).cell(a, b)]
                old(self).inBounds(a, b) && !(a == x && b == y) && !(old(self).cell(a, b) is EMPTY)
                    ==> final(self).cell(a, b) == old(self).cell(a, b),
            forall|a: int, b: int|
                #![trigger final(self).cell(a, b)]
                old(self).inBounds(a, b) && !(a == x && b == y) && final(self).cell(a, b) is STUCK
                    ==> old(self).cell(a, b) is STUCK,
            free ==> !(final(self).cell(x as int, y as int) is STUCK),
            free == (old(self).cell(x as int, y as int) is OCCUPIED && !old(self).stuckRule(
                x as int,
                y as int,
                false,
            )),
            !free ==> final(self).cells() == old(self).cells().update(
                x as int,
                old(self).cells()[x as int].update(y as int, frozen(old(self).cell(x as int, y as int))),
            ),
    {
        let ghost start = self.cells();
        let ghost w = self.width();
        let ghost h = self.height();
        let ghost still = Seq::new(MOVE_ATTEMPTS as nat, |i: int| (true, true));
        let stuck = self.isStuck(x as i32, y as i32, false);
        assert(self.cells()[x as int] == self.positionHash@[x as int]@);
        match self.positionHash[x][y] {
            FieldPosition::OCCUPIED(point) => {
                if stuck {
                    self.write(x, y, FieldPosition::STUCK(point));
                    proof {
                        lemma_grid_count_write(start, x as int, y as int, FieldPosition::STUCK(point), particleKind());
                        assert(visitOn(start, w, h, x as int, y as int, still) == (self.cells(), false));
                    }
                    false
                } else {
                    let (nx, ny) = self.findNextPosition(x as i32, y as i32);
                    let ghost d = choose|d: Seq<(bool, bool)>|
                        d.len() == MOVE_ATTEMPTS && (nx as int, ny as int) == #[trigger] self.plan(
                            x as int,
                            y as int,
                            d,
                        );
                    if nx != x as i32 || ny != y as i32 {
                        self.write(nx as usize, ny as usize, FieldPosition::OCCUPIED(point));
                        let ghost mid = self.cells();
                        proof {
                            lemma_grid_count_write(start, nx as int, ny as int, FieldPosition::OCCUPIED(point), particleKind());
                        }
                        self.write(x, y, FieldPosition::EMPTY);
                        proof {
                            lemma_grid_count_write(mid, x as int, y as int, FieldPosition::EMPTY, particleKind());
                        }
                    }
                    proof {
                        assert(visitOn(start, w, h, x as int, y as int, d) == (self.cells(), true));
                    }
                    true
                }
            },
            _ => {
                assert(start[x as int].update(y as int, start[x as int][y as int]) =~= start[x as int]);
                assert(start.update(x as int, start[x as int]) =~= start);
                assert(visitOn(start, w, h, x as int, y as int, still) == (self.cells(), false));
                false
            },
        }
    }
}

/// `g` with cell `(x, y)` replaced by `v`.
pub open spec fn writeCell(g: Seq<Seq<FieldPosition>>, x: int, y: int, v: FieldPosition) -> Seq<
    Seq<FieldPosition>,
> {
    g.update(x, g[x].update(y, v))
}

/// The visit of cell `(x, y)` of the `w` by `h` grid `g` during a tick, the
/// particle there (if any) having drawn `draws`. Gives the grid after and
/// whether a particle free to move was found: a mobile particle that meets
/// `stuckOn` freezes in place; any other moves where `planOn` sends it.
pub open spec fn visitOn(
    g: Seq<Seq<FieldPosition>>,
    w: int,
    h: int,
    x: int,
    y: int,
    draws: Seq<(bool, bool)>,
) -> (Seq<Seq<FieldPosition>>, bool) {
    match g[x][y] {
        FieldPosition::OCCUPIED(p) => if stuckOn(g, w, h, x, y, false) {
            (writeCell(g, x, y, FieldPosition::STUCK(p)), false)
        } else {
            let t = planOn(g, w, h, x, y, draws);
            if t == (x, y) {
                (g, true)
            } else {
                (
                    writeCell(writeCell(g, t.0, t.1, FieldPosition::OCCUPIED(p)), x, y, FieldPosition::EMPTY),
                    true,
                )
            }
        },
        _ => (g, false),
    }
}

/// The visits of the lowest `draws.len()` cells of column `x`, from the
/// floor upwards, the `k`-th using `draws[k]`; whether any found a free
/// particle.
pub open spec fn sweepRows(
    g: Seq<Seq<FieldPosition>>,
    w: int,
    h: int,
    x: int,
    draws: Seq<Seq<(bool, bool)>>,
) -> (Seq<Seq<FieldPosition>>, bool)
    decreases draws.len(),
{
    if draws.len() == 0 {
        (g, false)
    } else {
        let before = sweepRows(g, w, h, x, draws.drop_last());
        let after = visitOn(before.0, w, h, x, h - draws.len(), draws.last());
        (after.0, before.1 || after.1)
    }
}

/// The visits of the first `draws.len()` columns, left to right, column `c`
/// using `draws[c]`; whether any found a free particle.
pub open spec fn sweepCols(
    g: Seq<Seq<FieldPosition>>,
    w: int,
    h: int,
    draws: Seq<Seq<Seq<(bool, bool)>>>,
) -> (Seq<Seq<FieldPosition>>, bool)
    decreases draws.len(),
{
    if draws.len() == 0 {
        (g, false)
    } else {
        let before = sweepCols(g, w, h, draws.drop_last());
        let after = sweepRows(before.0, w, h, draws.len() - 1, draws.last());
        (after.0, before.1 || after.1)
    }
}

/// A whole tick on the `w` by `h` grid `g`: the grid after, and whether it
/// converged (no particle was free to move when its cell was visited).
pub open spec fn sweep(g: Seq<Seq<FieldPosition>>, w: int, h: int, draws: Seq<Seq<Seq<(bool, bool)>>>) -> (
    Seq<Seq<FieldPosition>>,
    bool,
) {
    let s = sweepCols(g, w, h, draws);
    (s.0, !s.1)
}

/// `draws` holds the draws of each of the `h` visits of a column.
pub open spec fn drawsForColumn(draws: Seq<Seq<(bool, bool)>>, h: int) -> bool {
    draws.len() == h && forall|k: int| 0 <= k < h ==> (#[trigger] draws[k]).len() == MOVE_ATTEMPTS
}

/// `draws` holds the draws of each visit of a `w` by `h` grid.
pub open spec fn drawsFor(draws: Seq<Seq<Seq<(bool, bool)>>>, w: int, h: int) -> bool {
    draws.len() == w && forall|c: int| 0 <= c < w ==> drawsForColumn(#[trigger] draws[c], h)
}

/// A frozen neighbour stays one while frozen cells are kept.
proof fn lemma_neighbor_kept(g1: Seq<Seq<FieldPosition>>, g2: Seq<Seq<FieldPosition>>, w: int, h: int, x: int, y: int)
    requires
        hasStuckNeighborOn(g1, w, h, x, y),
        forall|a: int, b: int|
            0 <= a < w && 0 <= b < h && (#[trigger] g1[a][b]) is STUCK ==> g2[a][b] == g1[a][b],
    ensures
        hasStuckNeighborOn(g2, w, h, x, y),
{
    let (a, b) = choose|a: int, b: int|
        isNeighbor(x, y, a, b) && 0 <= a < w && 0 <= b < h && (#[trigger] g1[a][b]) is STUCK;
    assert(g2[a][b] is STUCK);
}

/// A particle that meets the freezing rule still does after frozen cells
/// were kept and its own cell left as it was.
proof fn lemma_still_stuck(g0: Seq<Seq<FieldPosition>>, g1: Seq<Seq<FieldPosition>>, w: int, h: int, x: int, y: int)
    requires
        stuckOn(g0, w, h, x, y, false),
        g1[x][y] == g0[x][y],
        forall|a: int, b: int|
            0 <= a < w && 0 <= b < h && (#[trigger] g0[a][b]) is STUCK ==> g1[a][b] == g0[a][b],
    ensures
        stuckOn(g1, w, h, x, y, false),
{
    if g0[x][y] is OCCUPIED && y != h - 1 {
        let (a, b) = choose|a: int, b: int|
            isNeighbor(x, y, a, b) && 0 <= a < w && 0 <= b < h && (#[trigger] g0[a][b]) is STUCK;
        assert(g1[a][b] is STUCK);
    }
}

} // verus!
