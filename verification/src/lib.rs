//! Deterministic pixel-art identicons: an identifier is hashed, the digest
//! picks a mirrored 5x5 pattern and a dark foreground colour, the pattern is
//! painted on a fixed canvas, and the encoded picture is kept in a bounded,
//! recency-ordered cache that computes each identifier at most once.

use crate::canvas::{put_pixel, Canvas};
use crate::colors::{foreground, foreground_of, Color, BACKGROUND};
use crate::utils::{md5, md5_digest};
use vstd::prelude::*;

pub mod cache;
pub mod canvas;
pub mod colors;
pub mod laws;
pub mod nibbler;
pub mod pipeline;
pub mod server;
pub mod table;
pub mod utils;

verus! {

/// Cells along one side of the pattern.
pub const SPRITE_SIZE: u32 = 5;

/// Side of the square canvas, in pixels.
pub const IMAGE_SIZE: u32 = 290;

/// Side of one pattern cell, in pixels: the canvas divided among the five
/// cells and one more cell's worth of border, rounded down.
pub const PIXEL_SIZE: u32 = 48;

/// Width of the empty border to the left of and above the pattern: half a
/// cell.
pub const MARGIN: u32 = 24;

/// Which half-byte of the digest decides the cell in row `row`, column
/// `col`. The middle column is filled first, top to bottom, then its
/// neighbours, then the outer columns; a column and its mirror image share
/// their half-bytes.
pub open spec fn cell_nibble(row: int, col: int) -> int
    recommends
        0 <= row < 5,
        0 <= col < 5,
{
    (if col <= 2 { 2 - col } else { col - 2 }) * 5 + row
}

/// Whether the cell in row `row`, column `col` is painted: it is when its
/// half-byte is even.
pub open spec fn painted(digest: Seq<u8>, row: int, col: int) -> bool
    recommends
        digest.len() == 16,
        0 <= row < 5,
        0 <= col < 5,
{
    nibbler::nibble_at(digest, cell_nibble(row, col)) % 2 == 0
}

/// The whole pattern of a digest, row after row.
pub open spec fn grid_of(digest: Seq<u8>) -> Seq<bool>
    recommends
        digest.len() == 16,
{
    Seq::new(25, |i: int| painted(digest, i / 5, i % 5))
}

/// The cell in row `row`, column `col` of a pattern stored row after row.
pub open spec fn cell_at(grid: Seq<bool>, row: int, col: int) -> bool
    recommends
        grid.len() == 25,
        0 <= row < 5,
        0 <= col < 5,
{
    grid[row * 5 + col]
}

/// The pattern of every digest is its own mirror image: in each row the
/// cell in column `col` equals the cell in column `4 - col`.
pub proof fn lemma_grid_mirrored(digest: Seq<u8>, row: int, col: int)
    requires
        0 <= row < 5,
        0 <= col < 5,
    ensures
        cell_at(grid_of(digest), row, col) == cell_at(grid_of(digest), row, 4 - col),
        cell_at(grid_of(digest), row, col) == painted(digest, row, col),
{
    assert(cell_nibble(row, col) == cell_nibble(row, 4 - col));
}

/// The pattern reads the first fifteen half-bytes of the digest, each of
/// them for one cell of the left three columns.
pub proof fn lemma_cells_read_fifteen(row: int, col: int)
    requires
        0 <= row < 5,
        0 <= col < 5,
    ensures
        0 <= cell_nibble(row, col) < 15,
        cell_nibble(row, col) == cell_nibble(row, 4 - col),
{
}

/// The cells and the border fit the canvas: a cell is a sixth of its side,
/// the border half a cell.
pub proof fn lemma_geometry()
    ensures
        PIXEL_SIZE as int == (IMAGE_SIZE as int) / (SPRITE_SIZE + 1),
        MARGIN as int == (PIXEL_SIZE as int) / 2,
        MARGIN + SPRITE_SIZE * PIXEL_SIZE <= IMAGE_SIZE,
{
}

/// Whether the cell in row `r`, column `c` has been decided once `done`
/// pairs of columns are complete and `row` rows of the next pair are: the
/// pairs go outwards from the middle column, each from the top.
spec fn decided(done: int, row: int, r: int, c: int) -> bool {
    let away = if c <= 2 {
        2 - c
    } else {
        c - 2
    };
    away < done || (away == done && r < row)
}

/// Every decided cell of `grid` is what the digest says.
spec fn decided_cells_agree(grid: Seq<bool>, digest: Seq<u8>, done: int, row: int) -> bool {
    forall|r: int, c: int|
        0 <= r < 5 && 0 <= c < 5 && decided(done, row, r, c) ==> #[trigger] cell_at(grid, r, c)
            == painted(digest, r, c)
}

/// Painting the next half-byte into its cell and the mirror image of that
/// cell decides row `row` of the pair of columns at hand and leaves every
/// other cell as it was.
proof fn lemma_paint_step(
    digest: Seq<u8>,
    before: Seq<bool>,
    after: Seq<bool>,
    done: int,
    row: int,
    paint: bool,
)
    requires
        before.len() == 25,
        0 <= done < 3,
        0 <= row < 5,
        paint == (nibbler::nibble_at(digest, 5 * done + row) % 2 == 0),
        after == before.update((2 - done) + row * 5, paint).update((2 + done) + row * 5, paint),
        decided_cells_agree(before, digest, done, row),
    ensures
        decided_cells_agree(after, digest, done, row + 1),
{
    let left = (2 - done) + row * 5;
    let right = (2 + done) + row * 5;
    assert forall|r: int, c: int|
        0 <= r < 5 && 0 <= c < 5 && decided(done, row + 1, r, c) implies #[trigger] cell_at(
        after,
        r,
        c,
    ) == painted(digest, r, c) by {
        let at = r * 5 + c;
        if r == row && c == 2 - done {
            assert(at == left);
            assert(cell_nibble(r, c) == 5 * done + row);
            assert(after[at] == paint);
        } else if r == row && c == 2 + done {
            assert(at == right);
            assert(cell_nibble(r, c) == 5 * done + row);
            assert(after[at] == paint);
        } else {
            assert(at != left);
            assert(at != right);
            assert(after[at] == before[at]);
            assert(decided(done, row, r, c));
            assert(cell_at(before, r, c) == painted(digest, r, c));
        }
    }
}

/// Derives the 5x5 pattern from a digest. Fifteen half-bytes are read; the
/// other seventeen play no part.
pub fn pixels(hash: [u8; 16]) -> (grid: [bool; 25])
    ensures
        grid@ == grid_of(hash@),
        forall|row: int, col: int|
            0 <= row < 5 && 0 <= col < 5 ==> #[trigger] cell_at(grid@, row, col) == cell_at(
                grid@,
                row,
                4 - col,
            ),
{
    let mut nibbles = nibbler::Nibbler::new(hash.as_slice());
    let mut pixels = [false; 25];
    let mut done: usize = 0;
    while done < 3
        invariant
            done <= 3,
            nibbles.source() == hash@,
            nibbles.consumed() == 5 * done,
            decided_cells_agree(pixels@, hash@, done as int, 0),
        decreases 3 - done,
    {
        let col: usize = 2 - done;
        let mirror_col: usize = 4 - col;
        let mut row: usize = 0;
        while row < 5
            invariant
                row <= 5,
                done < 3,
                col == 2 - done,
                mirror_col == 2 + done,
                nibbles.source() == hash@,
                nibbles.consumed() == 5 * done + row,
                decided_cells_agree(pixels@, hash@, done as int, row as int),
            decreases 5 - row,
        {
            let ix: usize = col + row * 5;
            let mirror_ix: usize = mirror_col + row * 5;
            let paint: bool = nibbles.next().unwrap() % 2 == 0;
            let ghost before = pixels@;
            pixels[ix] = paint;
            pixels[mirror_ix] = paint;
            proof {
                assert(ix == (2 - done) + row * 5);
                assert(mirror_ix == (2 + done) + row * 5);
                assert(pixels@ == before.update(ix as int, paint).update(mirror_ix as int, paint));
                lemma_paint_step(hash@, before, pixels@, done as int, row as int, paint);
            }
            row += 1;
        }
        proof {
            assert forall|r: int, c: int|
                0 <= r < 5 && 0 <= c < 5 && decided(done + 1, 0, r, c) implies #[trigger] cell_at(
                pixels@,
                r,
                c,
            ) == painted(hash@, r, c) by {
                assert(decided(done as int, 5, r, c));
            }
        }
        done += 1;
    }
    proof {
        assert forall|i: int| 0 <= i < 25 implies pixels@[i] == grid_of(hash@)[i] by {
            assert(decided(3, 0, i / 5, i % 5));
            assert(pixels@[i] == cell_at(pixels@, i / 5, i % 5));
        }
        assert(pixels@ =~= grid_of(hash@));
        assert forall|row: int, col: int| 0 <= row < 5 && 0 <= col < 5 implies #[trigger] cell_at(
            pixels@,
            row,
            col,
        ) == cell_at(pixels@, row, 4 - col) by {
            lemma_grid_mirrored(hash@, row, col);
        }
    }
    pixels
}

/// `rows` after the rectangle of columns `x0..x1` and rows `y0..y1` has been
/// painted up to, but not including, the pixel `(x, y)`, column by column
/// and each column from the top.
spec fn rect_filled_upto(
    rows: Seq<Seq<Color>>,
    x0: int,
    y0: int,
    x1: int,
    y1: int,
    x: int,
    y: int,
    color: Color,
) -> Seq<Seq<Color>> {
    Seq::new(
        rows.len(),
        |j: int|
            Seq::new(
                rows[j].len(),
                |i: int|
                    if y0 <= j < y1 && x0 <= i < x1 && (i < x || (i == x && j < y)) {
                        color
                    } else {
                        rows[j][i]
                    },
            ),
    )
}

/// `rows` with every pixel in columns `x0..x1` of rows `y0..y1` set to
/// `color`, and all others as they were.
pub open spec fn rect_filled(
    rows: Seq<Seq<Color>>,
    x0: int,
    y0: int,
    x1: int,
    y1: int,
    color: Color,
) -> Seq<Seq<Color>> {
    Seq::new(
        rows.len(),
        |j: int|
            Seq::new(
                rows[j].len(),
                |i: int|
                    if y0 <= j < y1 && x0 <= i < x1 {
                        color
                    } else {
                        rows[j][i]
                    },
            ),
    )
}

/// Fills the axis-aligned rectangle `[x0, x1) x [y0, y1)` with `color`.
/// A rectangle that is not empty has to lie on the canvas.
pub fn draw_rect(image: &mut Canvas, x0: u32, y0: u32, x1: u32, y1: u32, color: Color)
    requires
        x0 < x1 && y0 < y1 ==> y1 <= old(image)@.len() && forall|j: int|
            y0 <= j < y1 ==> x1 <= (#[trigger] old(image)@[j]).len(),
    ensures
        final(image)@ == rect_filled(old(image)@, x0 as int, y0 as int, x1 as int, y1 as int, color),
{
    let ghost rows = image@;
    if x0 >= x1 || y0 >= y1 {
        assert(rows =~~= rect_filled(rows, x0 as int, y0 as int, x1 as int, y1 as int, color));
        return ;
    }
    let mut x: u32 = x0;
    assert(rows =~~= rect_filled_upto(
        rows,
        x0 as int,
        y0 as int,
        x1 as int,
        y1 as int,
        x0 as int,
        y0 as int,
        color,
    ));
    while x < x1
        invariant
            x0 <= x <= x1,
            y0 < y1,
            y1 <= rows.len(),
            forall|j: int| y0 <= j < y1 ==> x1 <= (#[trigger] rows[j]).len(),
            image@ == rect_filled_upto(
                rows,
                x0 as int,
                y0 as int,
                x1 as int,
                y1 as int,
                x as int,
                y0 as int,
                color,
            ),
        decreases x1 - x,
    {
        let mut y: u32 = y0;
        while y < y1
            invariant
                x0 <= x < x1,
                y0 <= y <= y1,
                y1 <= rows.len(),
                forall|j: int| y0 <= j < y1 ==> x1 <= (#[trigger] rows[j]).len(),
                image@ == rect_filled_upto(
                    rows,
                    x0 as int,
                    y0 as int,
                    x1 as int,
                    y1 as int,
                    x as int,
                    y as int,
                    color,
                ),
            decreases y1 - y,
        {
            assert(x1 <= rows[y as int].len());
            put_pixel(image, x, y, color);
            assert(image@ =~~= rect_filled_upto(
                rows,
                x0 as int,
                y0 as int,
                x1 as int,
                y1 as int,
                x as int,
                y + 1,
                color,
            ));
            y += 1;
        }
        assert(image@ =~~= rect_filled_upto(
            rows,
            x0 as int,
            y0 as int,
            x1 as int,
            y1 as int,
            x + 1,
            y0 as int,
            color,
        ));
        x += 1;
    }
    assert(image@ =~~= rect_filled(rows, x0 as int, y0 as int, x1 as int, y1 as int, color));
}

/// The colour of pixel `(x, y)` of the picture of a pattern: the foreground
/// inside a painted cell, the background everywhere else. The cell in row
/// `r`, column `c` covers the pixels `[c * 48 + 24, c * 48 + 72) x
/// [r * 48 + 24, r * 48 + 72)`.
pub open spec fn pixel_color(grid: Seq<bool>, foreground: Color, x: int, y: int) -> Color {
    if MARGIN <= x < MARGIN + SPRITE_SIZE * PIXEL_SIZE && MARGIN <= y < MARGIN + SPRITE_SIZE
        * PIXEL_SIZE && cell_at(
        grid,
        (y - MARGIN) / (PIXEL_SIZE as int),
        (x - MARGIN) / (PIXEL_SIZE as int),
    ) {
        foreground
    } else {
        BACKGROUND
    }
}

/// The picture of a pattern: a square canvas of `IMAGE_SIZE` pixels a side.
pub open spec fn rendered(grid: Seq<bool>, foreground: Color) -> Seq<Seq<Color>> {
    Seq::new(
        IMAGE_SIZE as nat,
        |y: int| Seq::new(IMAGE_SIZE as nat, |x: int| pixel_color(grid, foreground, x, y)),
    )
}

/// The colour of pixel `(x, y)` once the first `cells` cells of the pattern,
/// counted row after row, have been rendered.
spec fn pixel_color_upto(grid: Seq<bool>, foreground: Color, cells: int, x: int, y: int) -> Color {
    let row = (y - MARGIN) / (PIXEL_SIZE as int);
    let col = (x - MARGIN) / (PIXEL_SIZE as int);
    if row * 5 + col < cells {
        pixel_color(grid, foreground, x, y)
    } else {
        BACKGROUND
    }
}

/// The canvas once the first `cells` cells of the pattern have been rendered.
spec fn rendered_upto(grid: Seq<bool>, foreground: Color, cells: int) -> Seq<Seq<Color>> {
    Seq::new(
        IMAGE_SIZE as nat,
        |y: int| Seq::new(IMAGE_SIZE as nat, |x: int| pixel_color_upto(grid, foreground, cells, x, y)),
    )
}

/// The picture that belongs to a digest.
pub open spec fn identicon_rows(digest: Seq<u8>) -> Seq<Seq<Color>> {
    rendered(grid_of(digest), foreground_of(digest))
}

/// Paints a pattern on a fresh canvas.
pub fn render(grid: &[bool; 25], foreground: Color) -> (image: Canvas)
    ensures
        image@ == rendered(grid@, foreground),
{
    let mut image = Canvas::filled(IMAGE_SIZE, IMAGE_SIZE, BACKGROUND);
    assert(image@ =~~= rendered_upto(grid@, foreground, 0));
    let mut row: u32 = 0;
    while row < SPRITE_SIZE
        invariant
            row <= SPRITE_SIZE,
            image@ == rendered_upto(grid@, foreground, row * 5),
        decreases SPRITE_SIZE - row,
    {
        let mut col: u32 = 0;
        while col < SPRITE_SIZE
            invariant
                row < SPRITE_SIZE,
                col <= SPRITE_SIZE,
                image@ == rendered_upto(grid@, foreground, row * 5 + col),
            decreases SPRITE_SIZE - col,
        {
            let x: u32 = col * PIXEL_SIZE;
            let y: u32 = row * PIXEL_SIZE;
            let ghost before = image@;
            if grid[(row * SPRITE_SIZE + col) as usize] {
                draw_rect(
                    &mut image,
                    x + MARGIN,
                    y + MARGIN,
                    x + PIXEL_SIZE + MARGIN,
                    y + PIXEL_SIZE + MARGIN,
                    foreground,
                );
            }
            assert(image@ =~~= rendered_upto(grid@, foreground, row * 5 + col + 1)) by {
                assert(cell_at(grid@, row as int, col as int) == grid@[row * 5 + col]);
                assert forall|i: int, j: int| 0 <= i < IMAGE_SIZE && 0 <= j < IMAGE_SIZE implies image@[j][i]
                    == pixel_color_upto(grid@, foreground, row * 5 + col + 1, i, j) by {
                    assert(before[j][i] == pixel_color_upto(grid@, foreground, row * 5 + col, i, j));
                }
            }
            col += 1;
        }
        row += 1;
    }
    assert(image@ =~~= rendered(grid@, foreground));
    image
}

/// The identicon of `data`: the digest of the bytes picks the pattern and
/// the foreground colour, and the pattern is painted on the canvas.
pub fn gen(data: &[u8]) -> (image: Canvas)
    ensures
        image@ == identicon_rows(md5_digest(data@)),
{
    let hash = md5(data);
    let color = foreground(&hash);
    let grid = pixels(hash);
    render(&grid, color)
}

} // verus!
