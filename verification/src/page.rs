//! One page of a document, and the rules that carry its field over to the next
//! page: lock the piece, clear full rows, raise the garbage row, mirror.

use crate::piece::{CellColor, Piece};
use vstd::prelude::*;

verus! {

/// One frame of a document: an optional piece, the playfield (row 0 at the
/// bottom), the garbage row below it, three flags and an optional comment.
#[derive(Clone, Debug, PartialEq, Eq, Hash)]
pub struct Page {
    pub piece: Option<Piece>,
    pub field: [[CellColor; 10]; 23],
    pub garbage_row: [CellColor; 10],
    pub rise: bool,
    pub mirror: bool,
    pub lock: bool,
    pub comment: Option<String>,
}

/// What a page holds, as mathematical values: rows are sequences of ten
/// colours, the comment is a sequence of characters.
#[verifier::ext_equal]
pub struct PageModel {
    pub piece: Option<Piece>,
    pub field: Seq<Seq<CellColor>>,
    pub garbage_row: Seq<CellColor>,
    pub rise: bool,
    pub mirror: bool,
    pub lock: bool,
    pub comment: Option<Seq<char>>,
}

/// The rows of a grid, each as a sequence.
pub open spec fn rows_view<const N: usize>(rows: [[CellColor; 10]; N]) -> Seq<Seq<CellColor>> {
    Seq::new(N as nat, |y: int| rows[y]@)
}

impl View for Page {
    type V = PageModel;

    open spec fn view(&self) -> PageModel {
        PageModel {
            piece: self.piece,
            field: rows_view(self.field),
            garbage_row: self.garbage_row@,
            rise: self.rise,
            mirror: self.mirror,
            lock: self.lock,
            comment: match self.comment {
                Some(s) => Some(s@),
                None => None,
            },
        }
    }
}

/// The cells of a grid in reading order, ten to a row.
pub open spec fn cells_of_rows(rows: Seq<Seq<CellColor>>) -> Seq<CellColor> {
    Seq::new((10 * rows.len()) as nat, |i: int| rows[i / 10][i % 10])
}

/// A row of ten empty cells.
pub open spec fn empty_row() -> Seq<CellColor> {
    Seq::new(10, |x: int| CellColor::Empty)
}

/// Whether a grid has `n` rows of ten cells.
pub open spec fn well_shaped(rows: Seq<Seq<CellColor>>, n: nat) -> bool {
    rows.len() == n && forall|y: int| 0 <= y < n ==> (#[trigger] rows[y]).len() == 10
}

/// Whether a row has no empty cell.
pub open spec fn row_full(row: Seq<CellColor>) -> bool {
    forall|x: int| 0 <= x < row.len() ==> row[x] != CellColor::Empty
}

/// The field with the four cells of `piece` overwritten by its colour.
pub open spec fn lock_piece(field: Seq<Seq<CellColor>>, piece: Piece) -> Seq<Seq<CellColor>> {
    Seq::new(
        23,
        |y: int|
            Seq::new(
                10,
                |x: int|
                    if piece.covers(x, y) {
                        piece.kind.color()
                    } else {
                        field[y][x]
                    },
            ),
    )
}

/// The rows that are not full, in their order.
pub open spec fn kept_rows(rows: Seq<Seq<CellColor>>) -> Seq<Seq<CellColor>>
    decreases rows.len(),
{
    if rows.len() == 0 {
        Seq::empty()
    } else if row_full(rows.last()) {
        kept_rows(rows.drop_last())
    } else {
        kept_rows(rows.drop_last()).push(rows.last())
    }
}

/// The field with its full rows removed: the rows that stay sink to the
/// bottom, and empty rows fill the top.
pub open spec fn clear_lines(field: Seq<Seq<CellColor>>) -> Seq<Seq<CellColor>> {
    let kept = kept_rows(field);
    kept + Seq::new((field.len() - kept.len()) as nat, |y: int| empty_row())
}

/// The field moved up by one row, with `garbage` as its new bottom row.
pub open spec fn raise(field: Seq<Seq<CellColor>>, garbage: Seq<CellColor>) -> Seq<
    Seq<CellColor>,
> {
    seq![garbage] + field.take(field.len() - 1)
}

/// The field with every row reversed left to right.
pub open spec fn mirror_rows(field: Seq<Seq<CellColor>>) -> Seq<Seq<CellColor>> {
    Seq::new(field.len(), |y: int| field[y].reverse())
}

impl PageModel {
    /// Whether the grids have their fixed sizes.
    pub open spec fn wf(self) -> bool {
        well_shaped(self.field, 23) && self.garbage_row.len() == 10
    }

    /// The page a document starts from: nothing placed, nothing set but `lock`.
    pub open spec fn blank() -> PageModel {
        PageModel {
            piece: None,
            field: Seq::new(23, |y: int| empty_row()),
            garbage_row: empty_row(),
            rise: false,
            mirror: false,
            lock: true,
            comment: None,
        }
    }

    /// Whether the page can be carried over: a piece that is to be locked
    /// lies inside the playfield.
    pub open spec fn can_advance(self) -> bool {
        self.piece is Some && self.lock ==> self.piece.unwrap().fits()
    }

    /// The field that the next page starts from: this page's field after
    /// lock, line clear, rise and mirror, in that order.
    pub open spec fn next_field(self) -> Seq<Seq<CellColor>> {
        let locked = if self.piece is Some && self.lock {
            lock_piece(self.field, self.piece.unwrap())
        } else {
            self.field
        };
        let cleared = clear_lines(locked);
        let raised = if self.rise {
            raise(cleared, self.garbage_row)
        } else {
            cleared
        };
        if self.mirror {
            mirror_rows(raised)
        } else {
            raised
        }
    }

    /// The page that follows this one by default: the carried-over field, the
    /// garbage row unless it was raised, `lock` kept, and nothing else.
    pub open spec fn next(self) -> PageModel {
        PageModel {
            piece: None,
            field: self.next_field(),
            garbage_row: if self.rise {
                empty_row()
            } else {
                self.garbage_row
            },
            rise: false,
            mirror: false,
            lock: self.lock,
            comment: None,
        }
    }

    /// The 24 rows in the order of the text format: the playfield from the
    /// top row down, then the garbage row.
    pub open spec fn fumen_rows(self) -> Seq<Seq<CellColor>> {
        Seq::new(
            24,
            |r: int|
                if r < 23 {
                    self.field[22 - r]
                } else {
                    self.garbage_row
                },
        )
    }

    /// The 240 cells in the order of the text format.
    pub open spec fn cells(self) -> Seq<CellColor> {
        cells_of_rows(self.fumen_rows())
    }

    /// The flag bits of the page: rise, mirror, has a comment, does not lock.
    pub open spec fn flags(self) -> int {
        (if self.rise {
            1int
        } else {
            0
        }) + (if self.mirror {
            2int
        } else {
            0
        }) + (if self.comment is Some {
            8int
        } else {
            0
        }) + (if self.lock {
            0int
        } else {
            16
        })
    }

    /// The number that stands for the piece and the flags of the page.
    pub open spec fn number(self) -> int {
        (match self.piece {
            Some(p) => p.number(),
            None => 0,
        }) + 7680 * self.flags()
    }

    /// Whether the page can be written: its piece, if any, has a position
    /// number, and the page can be carried over.
    pub open spec fn encodable(self) -> bool {
        (self.piece is Some ==> self.piece.unwrap().in_range()) && self.can_advance()
    }
}

/// The rows that are kept are rows of the field, no more than it has.
pub proof fn lemma_kept_rows_shape(rows: Seq<Seq<CellColor>>)
    requires
        forall|y: int| 0 <= y < rows.len() ==> (#[trigger] rows[y]).len() == 10,
    ensures
        kept_rows(rows).len() <= rows.len(),
        forall|y: int| 0 <= y < kept_rows(rows).len() ==> (#[trigger] kept_rows(rows)[y]).len() == 10,
    decreases rows.len(),
{
    if rows.len() > 0 {
        lemma_kept_rows_shape(rows.drop_last());
    }
}

/// The page that follows a page by default has the fixed sizes too.
pub proof fn lemma_next_wf(p: PageModel)
    requires
        p.wf(),
    ensures
        p.next().wf(),
{
    let locked = if p.piece is Some && p.lock {
        lock_piece(p.field, p.piece.unwrap())
    } else {
        p.field
    };
    assert(well_shaped(locked, 23));
    lemma_kept_rows_shape(locked);
    let cleared = clear_lines(locked);
    assert(well_shaped(cleared, 23));
    let raised = if p.rise {
        raise(cleared, p.garbage_row)
    } else {
        cleared
    };
    assert(well_shaped(raised, 23));
    let mirrored = if p.mirror {
        mirror_rows(raised)
    } else {
        raised
    };
    assert(well_shaped(mirrored, 23));
}

/// The page a document starts from: nothing placed, nothing set but `lock`.
/// The cells are set one by one: below an impl of `Default` the verifier
/// does not know what an array repeat expression holds.
fn blank_page() -> (page: Page)
    ensures
        page@ == PageModel::blank(),
{
    let mut row = [CellColor::Empty; 10];
    let mut x: usize = 0;
    while x < 10
        invariant
            0 <= x <= 10,
            forall|j: int| 0 <= j < x ==> row[j] == CellColor::Empty,
        decreases 10 - x,
    {
        row[x] = CellColor::Empty;
        x += 1;
    }
    let mut field = [row; 23];
    let mut y: usize = 0;
    while y < 23
        invariant
            0 <= y <= 23,
            forall|j: int| 0 <= j < y ==> field[j] == row,
        decreases 23 - y,
    {
        field[y] = row;
        y += 1;
    }
    assert(row@ =~= empty_row());
    assert(rows_view(field) =~= Seq::new(23, |y: int| empty_row()));
    Page { piece: None, field, garbage_row: row, rise: false, mirror: false, lock: true, comment: None }
}

impl Default for Page {
    fn default() -> (page: Page)
        ensures
            page@ == PageModel::blank(),
    {
        blank_page()
    }
}

/// Whether a row has no empty cell.
fn is_row_full(row: &[CellColor; 10]) -> (full: bool)
    ensures
        full == row_full(row@),
{
    let mut x: usize = 0;
    while x < 10
        invariant
            0 <= x <= 10,
            forall|j: int| 0 <= j < x ==> row[j] != CellColor::Empty,
        decreases 10 - x,
    {
        if row[x] == CellColor::Empty {
            assert(row@[x as int] == CellColor::Empty);
            return false;
        }
        x += 1;
    }
    true
}

/// Overwrites the four cells of `piece` with its colour.
fn stamp(field: &mut [[CellColor; 10]; 23], piece: Piece)
    requires
        piece.fits(),
    ensures
        rows_view(*final(field)) == lock_piece(rows_view(*old(field)), piece),
{
    let cells = piece.cells();
    let color = CellColor::from(piece.kind);
    let ghost orig = *field;
    let mut k: usize = 0;
    while k < 4
        invariant
            0 <= k <= 4,
            piece.fits(),
            color == piece.kind.color(),
            forall|j: int|
                0 <= j < 4 ==> cells[j].0 == piece.cell(j).0 && cells[j].1 == piece.cell(j).1,
            forall|y: int, x: int|
                0 <= y < 23 && 0 <= x < 10 ==> #[trigger] field[y][x] == (if exists|j: int|
                    0 <= j < k && piece.cell(j) == (x, y) {
                    color
                } else {
                    orig[y][x]
                }),
        decreases 4 - k,
    {
        let (x, y) = cells[k];
        let ghost before = *field;
        assert(0 <= piece.cell(k as int).0 < 10 && 0 <= piece.cell(k as int).1 < 23);
        field[y as usize][x as usize] = color;
        assert forall|yy: int, xx: int| 0 <= yy < 23 && 0 <= xx < 10 implies #[trigger] field[yy][xx]
            == (if exists|j: int| 0 <= j < k + 1 && piece.cell(j) == (xx, yy) {
            color
        } else {
            orig[yy][xx]
        }) by {
            if yy == y && xx == x {
                assert(piece.cell(k as int) == (xx, yy));
            } else {
                assert(field[yy][xx] == before[yy][xx]);
                if exists|j: int| 0 <= j < k + 1 && piece.cell(j) == (xx, yy) {
                    let j = choose|j: int| 0 <= j < k + 1 && piece.cell(j) == (xx, yy);
                    assert(j < k);
                }
            }
        }
        k += 1;
    }
    proof {
        let a = rows_view(*field);
        let b = lock_piece(rows_view(orig), piece);
        assert forall|y: int| 0 <= y < 23 implies a[y] =~= b[y] by {
            assert forall|x: int| 0 <= x < 10 implies a[y][x] == b[y][x] by {
                assert(a[y][x] == field[y][x]);
            }
        }
        assert(a =~= b);
    }
}

/// Removes the full rows, lets the others sink, and fills the top with empty
/// rows.
fn clear(field: &mut [[CellColor; 10]; 23])
    ensures
        rows_view(*final(field)) == clear_lines(rows_view(*old(field))),
{
    let ghost orig = *field;
    let ghost rows = rows_view(orig);
    let mut y: usize = 0;
    let mut i: usize = 0;
    while i < 23
        invariant
            0 <= y <= i <= 23,
            rows == rows_view(orig),
            forall|j: int| i <= j < 23 ==> field[j] == orig[j],
            kept_rows(rows.take(i as int)).len() == y,
            forall|j: int| 0 <= j < y ==> (#[trigger] field[j])@ == kept_rows(rows.take(i as int))[j],
        decreases 23 - i,
    {
        let row = field[i];
        let full = is_row_full(&row);
        proof {
            assert(rows.take(i + 1).drop_last() =~= rows.take(i as int));
            assert(rows.take(i + 1).last() == row@);
        }
        if !full {
            field[y] = row;
            y += 1;
        }
        i += 1;
    }
    proof {
        assert(rows.take(23) =~= rows);
    }
    let ghost kept = kept_rows(rows);
    let mut j: usize = y;
    while j < 23
        invariant
            y <= j <= 23,
            kept.len() == y,
            forall|r: int| 0 <= r < y ==> (#[trigger] field[r])@ == kept[r],
            forall|r: int| y <= r < j ==> (#[trigger] field[r])@ == empty_row(),
        decreases 23 - j,
    {
        field[j] = [CellColor::Empty; 10];
        assert(field[j as int]@ =~= empty_row());
        j += 1;
    }
    proof {
        let a = rows_view(*field);
        let b = clear_lines(rows);
        assert forall|r: int| 0 <= r < 23 implies a[r] == b[r] by {
            assert(a[r] == field[r]@);
        }
        assert(a =~= b);
    }
}

/// Moves every row up by one and puts `garbage` at the bottom.
fn lift(field: &mut [[CellColor; 10]; 23], garbage: [CellColor; 10])
    ensures
        rows_view(*final(field)) == raise(rows_view(*old(field)), garbage@),
{
    let ghost orig = *field;
    let mut i: usize = 22;
    while i > 0
        invariant
            0 <= i <= 22,
            forall|j: int| 0 <= j <= i ==> field[j] == orig[j],
            forall|j: int| i < j < 23 ==> field[j] == orig[j - 1],
        decreases i,
    {
        field[i] = field[i - 1];
        i -= 1;
    }
    field[0] = garbage;
    proof {
        let a = rows_view(*field);
        let b = raise(rows_view(orig), garbage@);
        assert forall|r: int| 0 <= r < 23 implies a[r] == b[r] by {
            assert(a[r] == field[r]@);
            if r > 0 {
                assert(b[r] == rows_view(orig)[r - 1]);
            }
        }
        assert(a =~= b);
    }
}

/// Reverses every row left to right.
fn flip(field: &mut [[CellColor; 10]; 23])
    ensures
        rows_view(*final(field)) == mirror_rows(rows_view(*old(field))),
{
    let ghost orig = *field;
    let mut y: usize = 0;
    while y < 23
        invariant
            0 <= y <= 23,
            forall|j: int| y <= j < 23 ==> field[j] == orig[j],
            forall|j: int| 0 <= j < y ==> (#[trigger] field[j])@ == orig[j]@.reverse(),
        decreases 23 - y,
    {
        let row = field[y];
        let mut flipped = [CellColor::Empty; 10];
        let mut x: usize = 0;
        while x < 10
            invariant
                0 <= x <= 10,
                forall|j: int| 0 <= j < x ==> flipped[j] == row[9 - j],
            decreases 10 - x,
        {
            flipped[x] = row[9 - x];
            x += 1;
        }
        assert(flipped@ =~= row@.reverse());
        field[y] = flipped;
        y += 1;
    }
    proof {
        let a = rows_view(*field);
        let b = mirror_rows(rows_view(orig));
        assert forall|r: int| 0 <= r < 23 implies a[r] == b[r] by {
            assert(a[r] == field[r]@);
        }
        assert(a =~= b);
    }
}

impl Page {
    /// Whether the page can be carried over to a next page.
    pub fn can_advance(&self) -> (b: bool)
        ensures
            b == self@.can_advance(),
    {
        match self.piece {
            Some(piece) => !self.lock || piece.fits_field(),
            None => true,
        }
    }

    /// Whether the page can be written: its piece, if any, has a position
    /// number, and the page can be carried over.
    pub fn can_encode(&self) -> (b: bool)
        ensures
            b == self@.encodable(),
    {
        match self.piece {
            Some(piece) => piece.has_position() && (!self.lock || piece.fits_field()),
            None => true,
        }
    }

    /// The default content of the page after this one: the field after lock,
    /// line clear, rise and mirror, with `lock` kept and everything else
    /// cleared.
    pub fn next_page(&self) -> (next: Page)
        requires
            self@.can_advance(),
        ensures
            next@ == self@.next(),
    {
        let mut field = self.field;
        if let Some(piece) = self.piece {
            if self.lock {
                stamp(&mut field, piece);
            }
        }
        clear(&mut field);
        if self.rise {
            lift(&mut field, self.garbage_row);
        }
        if self.mirror {
            flip(&mut field);
        }
        let garbage_row = if self.rise {
            [CellColor::Empty; 10]
        } else {
            self.garbage_row
        };
        assert(self.rise ==> garbage_row@ =~= empty_row());
        Page {
            piece: None,
            comment: None,
            rise: false,
            mirror: false,
            lock: self.lock,
            field,
            garbage_row,
        }
    }

    /// The 24 rows in the order of the text format: the playfield from the
    /// top row down, then the garbage row.
    pub fn fumen_field(&self) -> (rows: [[CellColor; 10]; 24])
        ensures
            rows_view(rows) == self@.fumen_rows(),
    {
        let mut rows = [[CellColor::Empty; 10]; 24];
        let mut y: usize = 0;
        while y < 23
            invariant
                0 <= y <= 23,
                forall|j: int| 0 <= j < y ==> rows[22 - j] == self.field[j],
            decreases 23 - y,
        {
            rows[22 - y] = self.field[y];
            y += 1;
        }
        rows[23] = self.garbage_row;
        proof {
            let a = rows_view(rows);
            let b = self@.fumen_rows();
            assert forall|r: int| 0 <= r < 24 implies a[r] == b[r] by {
                if r < 23 {
                    assert(rows[22 - (22 - r)] == self.field[22 - r]);
                }
            }
            assert(a =~= b);
        }
        rows
    }

    /// The number that stands for the piece and the flags of the page.
    pub fn fumen_number(&self) -> (n: u32)
        requires
            self.piece is Some ==> self.piece.unwrap().in_range(),
        ensures
            n == self@.number(),
            n < 7680 * 32,
    {
        let piece: u32 = match self.piece {
            Some(p) => p.fumen_number(),
            None => 0,
        };
        let rise: u32 = if self.rise { 1 } else { 0 };
        let mirror: u32 = if self.mirror { 2 } else { 0 };
        let comment: u32 = if self.comment.is_some() { 8 } else { 0 };
        let lock: u32 = if self.lock { 0 } else { 16 };
        piece + 240 * 32 * (rise + mirror + comment + lock)
    }
}

/// For each of the 240 cells, 8 plus the colour number in `to` minus the
/// colour number in `from`.
pub fn fumen_field_delta(from: [[CellColor; 10]; 24], to: [[CellColor; 10]; 24]) -> (deltas: [[usize; 10]; 24])
    ensures
        forall|y: int, x: int|
            0 <= y < 24 && 0 <= x < 10 ==> #[trigger] deltas[y][x] == 8 + to[y][x].number()
                - from[y][x].number(),
{
    let mut deltas = [[0usize; 10]; 24];
    let mut y: usize = 0;
    while y < 24
        invariant
            0 <= y <= 24,
            forall|j: int, x: int|
                0 <= j < y && 0 <= x < 10 ==> #[trigger] deltas[j][x] == 8 + to[j][x].number()
                    - from[j][x].number(),
        decreases 24 - y,
    {
        let mut row = [0usize; 10];
        let mut x: usize = 0;
        while x < 10
            invariant
                0 <= x <= 10,
                0 <= y < 24,
                forall|j: int|
                    0 <= j < x ==> #[trigger] row[j] == 8 + to[y as int][j].number() - from[y as int][j].number(),
            decreases 10 - x,
        {
            row[x] = 8 + to[y][x].to_number() - from[y][x].to_number();
            x += 1;
        }
        deltas[y] = row;
        y += 1;
    }
    deltas
}

/// The 240 deltas of a grid in reading order.
pub open spec fn linear(grid: [[usize; 10]; 24]) -> Seq<int> {
    Seq::new(240, |i: int| grid[i / 10][i % 10] as int)
}

/// Whether all 240 deltas say "no change".
pub open spec fn all_eight(cells: Seq<int>) -> bool {
    forall|i: int| 0 <= i < 240 ==> cells[i] == 8
}

/// Whether all 240 deltas say "no change".
pub fn all_unchanged(grid: &[[usize; 10]; 24]) -> (b: bool)
    ensures
        b == all_eight(linear(*grid)),
{
    let mut i: usize = 0;
    while i < 240
        invariant
            0 <= i <= 240,
            forall|k: int| 0 <= k < i ==> linear(*grid)[k] == 8,
        decreases 240 - i,
    {
        if grid[i / 10][i % 10] != 8 {
            assert(linear(*grid)[i as int] != 8);
            return false;
        }
        i += 1;
    }
    true
}

} // verus!

