use vstd::prelude::*;

use crate::draw_api::DrawApi;
use crate::grid::adjacent;
use crate::grid::col_of;
use crate::grid::lemma_cell_decomp;
use crate::grid::lemma_row_bound;
use crate::grid::row_of;

verus! {

/// Pixel `(x, y)` lies on one of the black grid lines that the initial fill
/// paints: a horizontal line every `bs` rows, a vertical line every `bs`
/// columns.
pub open spec fn grid_line_px(bs: int, cols: int, rows: int, x: int, y: int) -> bool {
    ||| (y % bs == 0 && y <= rows * bs && x < cols * bs)
    ||| (x % bs == 0 && x <= cols * bs && y < rows * bs)
}

/// Pixel `(x, y)` lies on the wall segment between the adjacent cells `a`
/// and `b`: the shared vertical border for row neighbors, the shared
/// horizontal border for column neighbors.
pub open spec fn wall_px(bs: int, cols: int, a: int, b: int, x: int, y: int) -> bool {
    let l = if a < b {
        a
    } else {
        b
    };
    let r = if a < b {
        b
    } else {
        a
    };
    if l + 1 == r {
        x == col_of(r, cols) * bs && row_of(l, cols) * bs <= y < (row_of(l, cols) + 1) * bs
    } else {
        y == row_of(r, cols) * bs && col_of(l, cols) * bs <= x < (col_of(l, cols) + 1) * bs
    }
}

/// Pixel `(x, y)` lies strictly inside cell `loc`: the block area minus its
/// border lines.
pub open spec fn cell_interior_px(bs: int, cols: int, loc: int, x: int, y: int) -> bool {
    &&& col_of(loc, cols) * bs + 1 <= x < (col_of(loc, cols) + 1) * bs
    &&& row_of(loc, cols) * bs + 1 <= y < (row_of(loc, cols) + 1) * bs
}

/// A nonnegative multiple of `bs` below `(k + 1) * bs` is at most `k * bs`.
proof fn lemma_multiple_below(y: int, bs: int, k: int)
    requires
        bs >= 1,
        0 <= y,
        y % bs == 0,
        k >= 0,
        y < (k + 1) * bs,
    ensures
        y <= k * bs,
{
    vstd::arithmetic::div_mod::lemma_fundamental_div_mod(y, bs);
    let q = y / bs;
    vstd::arithmetic::div_mod::lemma_div_pos_is_pos(y, bs);
    assert(q <= k) by (nonlinear_arith)
        requires
            y == bs * q,
            y < (k + 1) * bs,
            bs >= 1,
    ;
    assert(bs * q <= k * bs) by (nonlinear_arith)
        requires
            q <= k,
            bs >= 1,
            q >= 0,
    ;
}

/// A pixel color in the wall buffer.
#[derive(Clone, Copy, PartialEq, Eq, Structural, Debug)]
pub enum Color {
    Black,
    White,
    Green,
    Blue,
    Orange,
}

impl Color {
    /// RGBA encoding of the color, one byte per channel.
    pub open spec fn spec_rgba(self) -> [u8; 4] {
        match self {
            Color::White => [255u8, 255u8, 255u8, 255u8],
            Color::Black => [0u8, 0u8, 0u8, 255u8],
            Color::Green => [0u8, 160u8, 0u8, 255u8],
            Color::Blue => [0u8, 64u8, 224u8, 255u8],
            Color::Orange => [224u8, 128u8, 0u8, 255u8],
        }
    }

    /// RGBA encoding of the color, as executable code.
    pub fn rgba(self) -> (r: [u8; 4])
        ensures
            r == self.spec_rgba(),
    {
        match self {
            Color::White => [255, 255, 255, 255],
            Color::Black => [0, 0, 0, 255],
            Color::Green => [0, 160, 0, 255],
            Color::Blue => [0, 64, 224, 255],
            Color::Orange => [224, 128, 0, 255],
        }
    }
}

/// A pixel buffer for a grid of `columns` by `rows` cells, each drawn as a
/// `block_size` square, with one extra pixel line closing the last border.
pub struct ScreenBuffer<D: DrawApi> {
    block_size: usize,
    columns: usize,
    rows: usize,
    draw_api: D,
    buffer: Vec<Vec<Color>>,
}

impl<D: DrawApi> ScreenBuffer<D> {
    pub closed spec fn block_size(self) -> usize {
        self.block_size
    }

    pub closed spec fn columns(self) -> usize {
        self.columns
    }

    pub closed spec fn rows(self) -> usize {
        self.rows
    }

    /// The pixel grid, indexed `[x][y]`.
    pub closed spec fn pixels(self) -> Seq<Seq<Color>> {
        self.buffer@.map_values(|v: Vec<Color>| v@)
    }

    pub open spec fn pixel_w(self) -> int {
        self.columns() * self.block_size() + 1
    }

    pub open spec fn pixel_h(self) -> int {
        self.rows() * self.block_size() + 1
    }

    pub open spec fn well_formed(self) -> bool {
        &&& self.pixels().len() == self.pixel_w()
        &&& forall|x: int| 0 <= x < self.pixels().len() ==> #[trigger] self.pixels()[x].len()
            == self.pixel_h()
        &&& self.block_size() >= 1
        &&& self.columns() >= 1
        &&& self.rows() >= 1
        &&& self.pixel_w() <= usize::MAX
        &&& self.pixel_h() <= usize::MAX
        &&& self.columns() * self.rows() <= usize::MAX
    }

    proof fn lemma_pixels_index(self, x: int)
        requires
            0 <= x < self.buffer@.len(),
        ensures
            self.pixels().len() == self.buffer@.len(),
            self.pixels()[x] == self.buffer@[x]@,
    {
    }

    /// Paint one horizontal pixel run: row `y`, columns `min(x0, x1)`
    /// inclusive to `max(x0, x1)` exclusive.
    fn fill_horizontal_line(&mut self, x0: usize, x1: usize, y: usize, color: Color)
        requires
            old(self).well_formed(),
            x0 <= old(self).pixel_w(),
            x1 <= old(self).pixel_w(),
            y < old(self).pixel_h(),
        ensures
            final(self).well_formed(),
            final(self).block_size() == old(self).block_size(),
            final(self).columns() == old(self).columns(),
            final(self).rows() == old(self).rows(),
            forall|qx: int, qy: int|
                0 <= qx < old(self).pixel_w() && 0 <= qy < old(self).pixel_h()
                    ==> #[trigger] final(self).pixels()[qx][qy] == (if qy == y && (if x0 <= x1 {
                    x0 <= qx < x1
                } else {
                    x1 <= qx < x0
                }) {
                    color
                } else {
                    old(self).pixels()[qx][qy]
                }),
    {
        let left: usize;
        let right: usize;
        if x0 < x1 {
            left = x0;
            right = x1;
        } else {
            left = x1;
            right = x0;
        }
        let mut x = left;
        while x < right
            invariant
                old(self).well_formed(),
                self.well_formed(),
                self.block_size == old(self).block_size,
                self.columns == old(self).columns,
                self.rows == old(self).rows,
                left <= x <= right,
                right <= self.pixel_w(),
                y < self.pixel_h(),
                forall|qx: int, qy: int|
                    0 <= qx < self.pixel_w() && 0 <= qy < self.pixel_h()
                        ==> #[trigger] self.pixels()[qx][qy] == (if qy == y && left <= qx < x {
                        color
                    } else {
                        old(self).pixels()[qx][qy]
                    }),
            decreases right - x,
        {
            let ghost mid = *self;
            proof {
                mid.lemma_pixels_index(x as int);
            }
            self.buffer[x][y] = color;
            proof {
                assert forall|qx: int, qy: int|
                    0 <= qx < self.pixel_w() && 0 <= qy < self.pixel_h()
                    implies #[trigger] self.pixels()[qx][qy] == (if qy == y && left <= qx < x + 1 {
                    color
                } else {
                    old(self).pixels()[qx][qy]
                }) by {
                    self.lemma_pixels_index(qx);
                    mid.lemma_pixels_index(qx);
                    if qx != x {
                        assert(self.buffer@[qx] == mid.buffer@[qx]);
                    } else {
                        assert(self.buffer@[qx]@ == mid.buffer@[qx]@.update(y as int, color));
                    }
                }
                assert forall|qx: int|
                    0 <= qx < self.pixels().len() implies #[trigger] self.pixels()[qx].len()
                    == self.pixel_h() by {
                    self.lemma_pixels_index(qx);
                    mid.lemma_pixels_index(qx);
                }
            }
            x = x + 1;
        }
    }

    /// Paint one vertical pixel run: column `x`, rows `min(y0, y1)`
    /// inclusive to `max(y0, y1)` exclusive.
    fn fill_vertical_line(&mut self, y0: usize, y1: usize, x: usize, color: Color)
        requires
            old(self).well_formed(),
            y0 <= old(self).pixel_h(),
            y1 <= old(self).pixel_h(),
            x < old(self).pixel_w(),
        ensures
            final(self).well_formed(),
            final(self).block_size() == old(self).block_size(),
            final(self).columns() == old(self).columns(),
            final(self).rows() == old(self).rows(),
            forall|qx: int, qy: int|
                0 <= qx < old(self).pixel_w() && 0 <= qy < old(self).pixel_h()
                    ==> #[trigger] final(self).pixels()[qx][qy] == (if qx == x && (if y0 <= y1 {
                    y0 <= qy < y1
                } else {
                    y1 <= qy < y0
                }) {
                    color
                } else {
                    old(self).pixels()[qx][qy]
                }),
    {
        let top: usize;
        let bottom: usize;
        if y0 < y1 {
            top = y0;
            bottom = y1;
        } else {
            top = y1;
            bottom = y0;
        }
        let mut y = top;
        while y < bottom
            invariant
                old(self).well_formed(),
                self.well_formed(),
                self.block_size == old(self).block_size,
                self.columns == old(self).columns,
                self.rows == old(self).rows,
                top <= y <= bottom,
                bottom <= self.pixel_h(),
                x < self.pixel_w(),
                forall|qx: int, qy: int|
                    0 <= qx < self.pixel_w() && 0 <= qy < self.pixel_h()
                        ==> #[trigger] self.pixels()[qx][qy] == (if qx == x && top <= qy < y {
                        color
                    } else {
                        old(self).pixels()[qx][qy]
                    }),
            decreases bottom - y,
        {
            let ghost mid = *self;
            proof {
                mid.lemma_pixels_index(x as int);
            }
            self.buffer[x][y] = color;
            proof {
                assert forall|qx: int, qy: int|
                    0 <= qx < self.pixel_w() && 0 <= qy < self.pixel_h()
                    implies #[trigger] self.pixels()[qx][qy] == (if qx == x && top <= qy < y + 1 {
                    color
                } else {
                    old(self).pixels()[qx][qy]
                }) by {
                    self.lemma_pixels_index(qx);
                    mid.lemma_pixels_index(qx);
                    if qx != x {
                        assert(self.buffer@[qx] == mid.buffer@[qx]);
                    } else {
                        assert(self.buffer@[qx]@ == mid.buffer@[qx]@.update(y as int, color));
                    }
                }
                assert forall|qx: int|
                    0 <= qx < self.pixels().len() implies #[trigger] self.pixels()[qx].len()
                    == self.pixel_h() by {
                    self.lemma_pixels_index(qx);
                    mid.lemma_pixels_index(qx);
                }
            }
            y = y + 1;
        }
    }

    /// Paint the full lattice of black grid lines over the buffer: one
    /// horizontal line every `block_size` rows and one vertical line every
    /// `block_size` columns, leaving all other pixels untouched.
    fn initial_fill(&mut self)
        requires
            old(self).well_formed(),
        ensures
            final(self).well_formed(),
            final(self).block_size() == old(self).block_size(),
            final(self).columns() == old(self).columns(),
            final(self).rows() == old(self).rows(),
            forall|qx: int, qy: int|
                0 <= qx < old(self).pixel_w() && 0 <= qy < old(self).pixel_h()
                    ==> #[trigger] final(self).pixels()[qx][qy] == (if grid_line_px(
                    old(self).block_size() as int,
                    old(self).columns() as int,
                    old(self).rows() as int,
                    qx,
                    qy,
                ) {
                    Color::Black
                } else {
                    old(self).pixels()[qx][qy]
                }),
    {
        let bs = self.block_size;
        let cols = self.columns;
        let rows = self.rows;
        proof {
            assert(rows <= rows * bs && cols <= cols * bs) by (nonlinear_arith)
                requires
                    bs >= 1,
                    rows >= 1,
                    cols >= 1,
            ;
        }
        let mut r: usize = 0;
        while r < rows + 1
            invariant
                old(self).well_formed(),
                self.well_formed(),
                self.block_size == old(self).block_size,
                self.columns == old(self).columns,
                self.rows == old(self).rows,
                bs == self.block_size,
                cols == self.columns,
                rows == self.rows,
                rows <= rows * bs,
                r <= rows + 1,
                forall|qx: int, qy: int|
                    0 <= qx < self.pixel_w() && 0 <= qy < self.pixel_h()
                        ==> #[trigger] self.pixels()[qx][qy] == (if qy % (bs as int) == 0 && qy < r
                        * bs && qx < cols * bs {
                        Color::Black
                    } else {
                        old(self).pixels()[qx][qy]
                    }),
            decreases rows + 1 - r,
        {
            proof {
                assert(r * bs <= rows * bs) by (nonlinear_arith)
                    requires
                        r <= rows,
                        bs >= 1,
                ;
            }
            let ghost prev = *self;
            self.fill_horizontal_line(0, cols * bs, r * bs, Color::Black);
            proof {
                assert forall|qx: int, qy: int|
                    0 <= qx < self.pixel_w() && 0 <= qy < self.pixel_h()
                    implies #[trigger] self.pixels()[qx][qy] == (if qy % (bs as int) == 0 && qy < (
                r + 1) * bs && qx < cols * bs {
                    Color::Black
                } else {
                    old(self).pixels()[qx][qy]
                }) by {
                    assert((r + 1) * bs == r * bs + bs) by (nonlinear_arith);
                    if qy % (bs as int) == 0 && qy < (r + 1) * bs && qx < cols * bs {
                        if qy != r * bs {
                            if qy < r * bs {
                            } else {
                                lemma_multiple_below(qy, bs as int, r as int);
                                assert(false);
                            }
                        }
                    } else {
                        if qy == r * bs && qx < cols * bs {
                            vstd::arithmetic::div_mod::lemma_mod_multiples_basic(
                                r as int,
                                bs as int,
                            );
                            assert(false);
                        }
                    }
                }
            }
            r = r + 1;
        }
        proof {
            assert forall|qx: int, qy: int|
                0 <= qx < self.pixel_w() && 0 <= qy < self.pixel_h()
                implies #[trigger] self.pixels()[qx][qy] == (if qy % (bs as int) == 0 && qy <= rows
                * bs && qx < cols * bs {
                Color::Black
            } else {
                old(self).pixels()[qx][qy]
            }) by {
                assert((rows + 1) * bs == rows * bs + bs) by (nonlinear_arith);
                if qy % (bs as int) == 0 && 0 <= qy < (rows + 1) * bs {
                    lemma_multiple_below(qy, bs as int, rows as int);
                }
            }
        }
        let mut c: usize = 0;
        while c < cols + 1
            invariant
                old(self).well_formed(),
                self.well_formed(),
                self.block_size == old(self).block_size,
                self.columns == old(self).columns,
                self.rows == old(self).rows,
                bs == self.block_size,
                cols == self.columns,
                rows == self.rows,
                cols <= cols * bs,
                c <= cols + 1,
                forall|qx: int, qy: int|
                    0 <= qx < self.pixel_w() && 0 <= qy < self.pixel_h()
                        ==> #[trigger] self.pixels()[qx][qy] == (if (qy % (bs as int) == 0 && qy
                        <= rows * bs && qx < cols * bs) || (qx % (bs as int) == 0 && qx < c * bs
                        && qy < rows * bs) {
                        Color::Black
                    } else {
                        old(self).pixels()[qx][qy]
                    }),
            decreases cols + 1 - c,
        {
            proof {
                assert(c * bs <= cols * bs) by (nonlinear_arith)
                    requires
                        c <= cols,
                        bs >= 1,
                ;
            }
            self.fill_vertical_line(0, rows * bs, c * bs, Color::Black);
            proof {
                assert forall|qx: int, qy: int|
                    0 <= qx < self.pixel_w() && 0 <= qy < self.pixel_h()
                    implies #[trigger] self.pixels()[qx][qy] == (if (qy % (bs as int) == 0 && qy
                    <= rows * bs && qx < cols * bs) || (qx % (bs as int) == 0 && qx < (c + 1) * bs
                    && qy < rows * bs) {
                    Color::Black
                } else {
                    old(self).pixels()[qx][qy]
                }) by {
                    assert((c + 1) * bs == c * bs + bs) by (nonlinear_arith);
                    if qx % (bs as int) == 0 && qx < (c + 1) * bs && qy < rows * bs {
                        if qx != c * bs && qx >= c * bs {
                            lemma_multiple_below(qx, bs as int, c as int);
                            assert(false);
                        }
                    } else {
                        if qx == c * bs && qy < rows * bs {
                            vstd::arithmetic::div_mod::lemma_mod_multiples_basic(
                                c as int,
                                bs as int,
                            );
                            assert(false);
                        }
                    }
                }
            }
            c = c + 1;
        }
        proof {
            assert forall|qx: int, qy: int|
                0 <= qx < self.pixel_w() && 0 <= qy < self.pixel_h()
                implies #[trigger] self.pixels()[qx][qy] == (if grid_line_px(
                bs as int,
                cols as int,
                rows as int,
                qx,
                qy,
            ) {
                Color::Black
            } else {
                old(self).pixels()[qx][qy]
            }) by {
                if qy % (bs as int) == 0 && 0 <= qy < (rows + 1) * bs {
                    lemma_multiple_below(qy, bs as int, rows as int);
                }
                if qx % (bs as int) == 0 && 0 <= qx < (cols + 1) * bs {
                    lemma_multiple_below(qx, bs as int, cols as int);
                }
                assert((rows + 1) * bs == rows * bs + bs) by (nonlinear_arith);
                assert((cols + 1) * bs == cols * bs + bs) by (nonlinear_arith);
            }
        }
    }

    /// A buffer whose pixels start all white and then carry the full black
    /// grid of walls.
    pub fn new(block_size: usize, columns: usize, rows: usize, draw_api: D) -> (r: ScreenBuffer<
        D,
    >)
        requires
            block_size >= 1,
            columns >= 1,
            rows >= 1,
            columns * block_size + 1 <= usize::MAX,
            rows * block_size + 1 <= usize::MAX,
            columns * rows <= usize::MAX,
        ensures
            r.well_formed(),
            r.block_size() == block_size,
            r.columns() == columns,
            r.rows() == rows,
            forall|qx: int, qy: int|
                0 <= qx < r.pixel_w() && 0 <= qy < r.pixel_h() ==> #[trigger] r.pixels()[qx][qy]
                    == (if grid_line_px(block_size as int, columns as int, rows as int, qx, qy) {
                    Color::Black
                } else {
                    Color::White
                }),
    {
        let pw = columns * block_size + 1;
        let ph = rows * block_size + 1;
        let mut inner_buf: Vec<Vec<Color>> = Vec::new();
        let mut x: usize = 0;
        while x < pw
            invariant
                x <= pw,
                inner_buf@.len() == x,
                forall|i: int|
                    0 <= i < x ==> #[trigger] inner_buf@[i]@.len() == ph && (forall|j: int|
                        0 <= j < ph ==> inner_buf@[i]@[j] == Color::White),
            decreases pw - x,
        {
            let mut col: Vec<Color> = Vec::new();
            let mut y: usize = 0;
            while y < ph
                invariant
                    y <= ph,
                    col@.len() == y,
                    forall|j: int| 0 <= j < y ==> col@[j] == Color::White,
                decreases ph - y,
            {
                col.push(Color::White);
                y = y + 1;
            }
            inner_buf.push(col);
            x = x + 1;
        }
        let ghost ib = inner_buf@;
        let mut buf = ScreenBuffer { block_size, columns, rows, draw_api, buffer: inner_buf };
        proof {
            assert(buf.pixels().len() == buf.buffer@.len());
            assert forall|qx: int|
                0 <= qx < buf.pixels().len() implies #[trigger] buf.pixels()[qx].len()
                == buf.pixel_h() by {
                buf.lemma_pixels_index(qx);
                assert(ib[qx]@.len() == ph);
            }
            assert forall|qx: int, qy: int|
                0 <= qx < buf.pixel_w() && 0 <= qy < buf.pixel_h()
                implies #[trigger] buf.pixels()[qx][qy] == Color::White by {
                buf.lemma_pixels_index(qx);
                assert(ib[qx]@.len() == ph);
            }
        }
        let ghost start = buf;
        buf.initial_fill();
        proof {
            assert forall|qx: int, qy: int|
                0 <= qx < buf.pixel_w() && 0 <= qy < buf.pixel_h()
                implies #[trigger] buf.pixels()[qx][qy] == (if grid_line_px(
                block_size as int,
                columns as int,
                rows as int,
                qx,
                qy,
            ) {
                Color::Black
            } else {
                Color::White
            }) by {
                assert(start.pixels()[qx][qy] == Color::White);
            }
        }
        buf
    }

    /// Open the wall between the adjacent cells `a_idx` and `b_idx`: every
    /// pixel of their shared border segment turns white, and no other pixel
    /// changes.
    pub fn remove_wall(&mut self, a_idx: usize, b_idx: usize)
        requires
            old(self).well_formed(),
            a_idx < old(self).columns() * old(self).rows(),
            b_idx < old(self).columns() * old(self).rows(),
            adjacent(a_idx as int, b_idx as int, old(self).columns() as int),
        ensures
            final(self).well_formed(),
            final(self).block_size() == old(self).block_size(),
            final(self).columns() == old(self).columns(),
            final(self).rows() == old(self).rows(),
            forall|qx: int, qy: int|
                0 <= qx < old(self).pixel_w() && 0 <= qy < old(self).pixel_h()
                    ==> #[trigger] final(self).pixels()[qx][qy] == (if wall_px(
                    old(self).block_size() as int,
                    old(self).columns() as int,
                    a_idx as int,
                    b_idx as int,
                    qx,
                    qy,
                ) {
                    Color::White
                } else {
                    old(self).pixels()[qx][qy]
                }),
    {
        let bs = self.block_size;
        let cols = self.columns;
        let left: usize;
        let right: usize;
        if a_idx < b_idx {
            left = a_idx;
            right = b_idx;
        } else {
            left = b_idx;
            right = a_idx;
        }
        let left_col = left % cols;
        let left_row = left / cols;
        let right_col = right % cols;
        let right_row = right / cols;
        proof {
            lemma_cell_decomp(left as int, cols as int);
            lemma_cell_decomp(right as int, cols as int);
            lemma_row_bound(left as int, cols as int, self.rows as int);
            lemma_row_bound(right as int, cols as int, self.rows as int);
            assert(right_col * bs <= (cols - 1) * bs && (left_row + 1) * bs <= self.rows * bs
                && (left_col + 1) * bs <= cols * bs && right_row * bs <= (self.rows - 1) * bs && (
            cols - 1) * bs < cols * bs && (self.rows - 1) * bs < self.rows * bs && left_row * bs
                <= (self.rows - 1) * bs && left_col * bs <= (cols - 1) * bs)
                by (nonlinear_arith)
                requires
                    bs >= 1,
                    cols >= 1,
                    self.rows >= 1,
                    right_col <= cols - 1,
                    left_col <= cols - 1,
                    left_row <= self.rows - 1,
                    right_row <= self.rows - 1,
                    left_row >= 0,
                    right_row >= 0,
                    left_col >= 0,
                    right_col >= 0,
            ;
            assert((left_row + 1) * bs == left_row * bs + bs && (left_col + 1) * bs == left_col
                * bs + bs) by (nonlinear_arith);
        }
        if left + 1 == right {
            self.fill_vertical_line(left_row * bs, (left_row + 1) * bs, right_col * bs, Color::White);
        } else {
            proof {
                assert(right == left + cols);
            }
            self.fill_horizontal_line(left_col * bs, (left_col + 1) * bs, right_row * bs, Color::White);
        }
    }

    /// Paint the interior of cell `loc` (its block area minus the border
    /// lines) in the given color.
    pub fn draw_item(&mut self, loc: usize, color: Color)
        requires
            old(self).well_formed(),
            loc < old(self).columns() * old(self).rows(),
        ensures
            final(self).well_formed(),
            final(self).block_size() == old(self).block_size(),
            final(self).columns() == old(self).columns(),
            final(self).rows() == old(self).rows(),
            forall|qx: int, qy: int|
                0 <= qx < old(self).pixel_w() && 0 <= qy < old(self).pixel_h()
                    ==> #[trigger] final(self).pixels()[qx][qy] == (if cell_interior_px(
                    old(self).block_size() as int,
                    old(self).columns() as int,
                    loc as int,
                    qx,
                    qy,
                ) {
                    color
                } else {
                    old(self).pixels()[qx][qy]
                }),
    {
        let bs = self.block_size;
        let cols = self.columns;
        let cc = loc % cols;
        let rr = loc / cols;
        proof {
            lemma_cell_decomp(loc as int, cols as int);
            lemma_row_bound(loc as int, cols as int, self.rows as int);
            assert((cc + 1) * bs <= cols * bs && (rr + 1) * bs <= self.rows * bs)
                by (nonlinear_arith)
                requires
                    bs >= 1,
                    cols >= 1,
                    self.rows >= 1,
                    cc <= cols - 1,
                    rr <= self.rows - 1,
                    cc >= 0,
                    rr >= 0,
            ;
            assert((rr + 1) * bs == rr * bs + bs && (cc + 1) * bs == cc * bs + bs)
                by (nonlinear_arith);
        }
        let y_end = (rr + 1) * bs;
        let mut y = rr * bs + 1;
        while y < y_end
            invariant
                old(self).well_formed(),
                self.well_formed(),
                self.block_size == old(self).block_size,
                self.columns == old(self).columns,
                self.rows == old(self).rows,
                bs == self.block_size,
                cols == self.columns,
                cc == loc % cols,
                rr == loc / cols,
                loc < cols * self.rows,
                rr * bs + 1 <= y <= y_end,
                y_end == (rr + 1) * bs,
                y_end <= self.rows * bs,
                (cc + 1) * bs <= self.columns * bs,
                (cc + 1) * bs == cc * bs + bs,
                forall|qx: int, qy: int|
                    0 <= qx < self.pixel_w() && 0 <= qy < self.pixel_h()
                        ==> #[trigger] self.pixels()[qx][qy] == (if (cc as int) * bs + 1 <= qx < (
                        cc + 1) * bs && rr * bs + 1 <= qy < y {
                        color
                    } else {
                        old(self).pixels()[qx][qy]
                    }),
            decreases y_end - y,
        {
            self.fill_horizontal_line(cc * bs + 1, (cc + 1) * bs, y, color);
            y = y + 1;
        }
    }

    /// Paint the player marker: the interior of its cell in the given color.
    pub fn draw_player(&mut self, loc: usize, color: Color)
        requires
            old(self).well_formed(),
            loc < old(self).columns() * old(self).rows(),
        ensures
            final(self).well_formed(),
            final(self).block_size() == old(self).block_size(),
            final(self).columns() == old(self).columns(),
            final(self).rows() == old(self).rows(),
            forall|qx: int, qy: int|
                0 <= qx < old(self).pixel_w() && 0 <= qy < old(self).pixel_h()
                    ==> #[trigger] final(self).pixels()[qx][qy] == (if cell_interior_px(
                    old(self).block_size() as int,
                    old(self).columns() as int,
                    loc as int,
                    qx,
                    qy,
                ) {
                    color
                } else {
                    old(self).pixels()[qx][qy]
                }),
    {
        self.draw_item(loc, color);
    }

    /// Hand every pixel to the drawing callback, then apply.  The buffer
    /// itself is left unchanged.
    pub fn draw(&mut self)
        requires
            old(self).well_formed(),
        ensures
            final(self).well_formed(),
            final(self).block_size() == old(self).block_size(),
            final(self).columns() == old(self).columns(),
            final(self).rows() == old(self).rows(),
            final(self).pixels() == old(self).pixels(),
    {
        let mut x: usize = 0;
        while x < self.buffer.len()
            invariant
                self.well_formed(),
                self.block_size == old(self).block_size,
                self.columns == old(self).columns,
                self.rows == old(self).rows,
                self.buffer == old(self).buffer,
            decreases self.buffer@.len() - x,
        {
            let mut y: usize = 0;
            while y < self.buffer[x].len()
                invariant
                    self.well_formed(),
                    self.block_size == old(self).block_size,
                    self.columns == old(self).columns,
                    self.rows == old(self).rows,
                    self.buffer == old(self).buffer,
                    x < self.buffer@.len(),
                decreases self.buffer@[x as int]@.len() - y,
            {
                let c = self.buffer[x][y];
                self.draw_api.draw_api(x, y, c);
                y = y + 1;
            }
            x = x + 1;
        }
        self.draw_api.draw_apply();
    }
}

} // verus!
