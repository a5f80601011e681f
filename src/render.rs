use crate::grid::{DLAField, FieldPosition};
use vstd::prelude::*;

verus! {

/// The four bytes (red, green, blue, alpha) a cell is drawn with: opaque
/// black when empty, else the particle's colour.
pub open spec fn pixel(c: FieldPosition) -> Seq<u8> {
    match c {
        FieldPosition::EMPTY => seq![0u8, 0u8, 0u8, 255u8],
        FieldPosition::OCCUPIED(p) => p.color@,
        FieldPosition::STUCK(p) => p.color@,
    }
}

/// `n` opaque black pixels.
pub open spec fn blackPixels(n: int) -> Seq<u8> {
    Seq::new(
        (4 * n) as nat,
        |i: int|
            if i % 4 == 3 {
                255u8
            } else {
                0u8
            },
    )
}

impl DLAField {
    /// The pixels of the first `n` cells of row `y`, left to right.
    pub open spec fn rowBytes(&self, y: int, n: int) -> Seq<u8>
        decreases n,
    {
        if n <= 0 {
            Seq::empty()
        } else {
            self.rowBytes(y, n - 1) + pixel(self.cell(n - 1, y))
        }
    }

    /// The pixels of the first `m` rows, top row first.
    pub open spec fn imageBytes(&self, m: int) -> Seq<u8>
        decreases m,
    {
        if m <= 0 {
            Seq::empty()
        } else {
            self.imageBytes(m - 1) + self.rowBytes(m - 1, self.width())
        }
    }

    /// The whole grid as a row-major RGBA pixel buffer.
    pub open spec fn pixelBuffer(&self) -> Seq<u8> {
        self.imageBytes(self.height())
    }

    proof fn lemma_row_len(&self, y: int, n: int)
        requires
            0 <= n,
        ensures
            self.rowBytes(y, n).len() == 4 * n,
        decreases n,
    {
        if n > 0 {
            self.lemma_row_len(y, n - 1);
        }
    }

    proof fn lemma_image_len(&self, m: int)
        requires
            0 <= m,
        ensures
            self.imageBytes(m).len() == 4 * m * self.width(),
        decreases m,
    {
        let w = self.width();
        if m > 0 {
            self.lemma_image_len(m - 1);
            self.lemma_row_len(m - 1, w);
            assert(self.imageBytes(m).len() == self.imageBytes(m - 1).len() + self.rowBytes(m - 1, w).len());
            assert(4 * m * w == 4 * (m - 1) * w + 4 * w) by (nonlinear_arith);
        } else {
            assert(4 * m * w == 0) by (nonlinear_arith) requires m == 0;
        }
    }

    /// The buffer has four bytes for each cell.
    pub proof fn lemma_pixel_buffer_len(&self)
        ensures
            self.pixelBuffer().len() == 4 * self.width() * self.height(),
    {
        let (w, h) = (self.width(), self.height());
        self.lemma_image_len(h);
        assert(4 * h * w == 4 * w * h) by (nonlinear_arith);
    }

    proof fn lemma_row_index(&self, y: int, n: int, x: int, k: int)
        requires
            0 <= x < n,
            0 <= k < 4,
        ensures
            self.rowBytes(y, n)[4 * x + k] == pixel(self.cell(x, y))[k],
        decreases n,
    {
        self.lemma_row_len(y, n - 1);
        if x < n - 1 {
            self.lemma_row_index(y, n - 1, x, k);
        }
    }

    proof fn lemma_image_index(&self, m: int, x: int, y: int, k: int)
        requires
            0 <= y < m,
            0 <= x < self.width(),
            0 <= k < 4,
        ensures
            self.imageBytes(m)[4 * (y * self.width() + x) + k] == pixel(self.cell(x, y))[k],
        decreases m,
    {
        let w = self.width();
        self.lemma_image_len(m - 1);
        self.lemma_row_len(m - 1, w);
        if y < m - 1 {
            self.lemma_image_index(m - 1, x, y, k);
            assert(4 * (y * w + x) + k < 4 * (m - 1) * w) by (nonlinear_arith)
                requires
                    0 <= y < m - 1,
                    0 <= x < w,
                    0 <= k < 4,
            ;
        } else {
            assert(4 * (y * w + x) + k - 4 * (m - 1) * w == 4 * x + k) by (nonlinear_arith)
                requires
                    y == m - 1,
            ;
            self.lemma_row_index(m - 1, w, x, k);
        }
    }

    /// Cell `(x, y)` is drawn at bytes `4 * (y * width + x)` to
    /// `4 * (y * width + x) + 3` of the buffer: rows one after the other,
    /// each from left to right.
    pub proof fn lemma_pixel_at(&self, x: int, y: int, k: int)
        requires
            self.inBounds(x, y),
            0 <= k < 4,
        ensures
            self.pixelBuffer()[4 * (y * self.width() + x) + k] == pixel(self.cell(x, y))[k],
    {
        self.lemma_image_index(self.height(), x, y, k);
    }

    proof fn lemma_black_row(&self, y: int, n: int)
        requires
            0 <= n <= self.width(),
            forall|a: int| 0 <= a < n ==> #[trigger] self.cell(a, y) is EMPTY,
        ensures
            self.rowBytes(y, n) == blackPixels(n),
        decreases n,
    {
        if n > 0 {
            self.lemma_black_row(y, n - 1);
            assert(self.cell(n - 1, y) is EMPTY);
            lemma_black_concat(n - 1, 1);
            assert(pixel(self.cell(n - 1, y)) =~= blackPixels(1));
        }
    }

    proof fn lemma_black_image(&self, m: int)
        requires
            0 <= m <= self.height(),
            forall|a: int, b: int| self.inBounds(a, b) ==> #[trigger] self.cell(a, b) is EMPTY,
        ensures
            self.imageBytes(m) == blackPixels(m * self.width()),
        decreases m,
    {
        if m == 0 {
            assert(m * self.width() == 0) by (nonlinear_arith) requires m == 0;
            assert(blackPixels(0) =~= Seq::<u8>::empty());
        } else {
            self.lemma_black_image(m - 1);
            assert forall|a: int| 0 <= a < self.width() implies #[trigger] self.cell(a, m - 1) is EMPTY by {
                assert(self.inBounds(a, m - 1));
            }
            self.lemma_black_row(m - 1, self.width());
            assert(0 <= (m - 1) * self.width()) by (nonlinear_arith)
                requires m >= 1, self.width() >= 0;
            lemma_black_concat((m - 1) * self.width(), self.width());
            assert((m - 1) * self.width() + self.width() == m * self.width()) by (nonlinear_arith);
        }
    }

    /// A grid with no particle renders as `width * height` opaque black
    /// pixels: every fourth byte, the alpha, is 255 and all others are 0.
    pub proof fn lemma_empty_grid_is_black(&self)
        requires
            forall|a: int, b: int| self.inBounds(a, b) ==> #[trigger] self.cell(a, b) is EMPTY,
        ensures
            self.pixelBuffer().len() == 4 * self.width() * self.height(),
            forall|i: int|
                0 <= i < self.pixelBuffer().len() ==> #[trigger] self.pixelBuffer()[i] == if i % 4
                    == 3 {
                    255u8
                } else {
                    0u8
                },
    {
        self.lemma_pixel_buffer_len();
        self.lemma_black_image(self.height());
    }

    /// The grid as a row-major RGBA pixel buffer: see `pixelBuffer`.
    pub fn getOneDimensionalRepresentation(&self) -> (r: Vec<u8>)
        requires
            self.wf(),
        ensures
            r@ == self.pixelBuffer(),
            r@.len() == 4 * self.width() * self.height(),
    {
        let width = self.getWidth();
        let height = self.getHeight();
        let mut values: Vec<u8> = Vec::new();
        let mut y: usize = 0;
        while y < height
            invariant
                self.wf(),
                width == self.width(),
                height == self.height(),
                y <= height,
                values@ == self.imageBytes(y as int),
            decreases height - y,
        {
            let mut x: usize = 0;
            assert(self.imageBytes(y as int) + self.rowBytes(y as int, 0) =~= self.imageBytes(
                y as int,
            ));
            while x < width
                invariant
                    self.wf(),
                    width == self.width(),
                    height == self.height(),
                    y < height,
                    x <= width,
                    values@ == self.imageBytes(y as int) + self.rowBytes(y as int, x as int),
                decreases width - x,
            {
                assert(self.cells()[x as int] == self.positionHash@[x as int]@);
                let ghost before = values@;
                let color: [u8; 4] = match &self.positionHash[x][y] {
                    FieldPosition::OCCUPIED(point) => point.color,
                    FieldPosition::STUCK(point) => point.color,
                    FieldPosition::EMPTY => [0, 0, 0, 255],
                };
                values.push(color[0]);
                values.push(color[1]);
                values.push(color[2]);
                values.push(color[3]);
                assert(color@ =~= pixel(self.cell(x as int, y as int)));
                assert(values@ =~= before + pixel(self.cell(x as int, y as int)));
                x = x + 1;
            }
            y = y + 1;
        }
        proof {
            self.lemma_pixel_buffer_len();
        }
        values
    }
}

proof fn lemma_black_concat(a: int, b: int)
    requires
        0 <= a,
        0 <= b,
    ensures
        blackPixels(a) + blackPixels(b) == blackPixels(a + b),
{
    let s = blackPixels(a) + blackPixels(b);
    assert forall|i: int| 0 <= i < 4 * (a + b) implies #[trigger] s[i] == blackPixels(a + b)[i] by {
        if i >= 4 * a {
            assert((i - 4 * a) % 4 == i % 4) by (nonlinear_arith)
                requires
                    0 <= a,
            ;
        }
    }
    assert(blackPixels(a) + blackPixels(b) =~= blackPixels(a + b));
}

} // verus!
