//! Cell colours, piece kinds, rotation states and the mapping between a piece's
//! rotation centre and the position number the text format stores for it.

use vstd::prelude::*;

verus! {

/// The colour of one cell: empty, one of the seven piece colours, or grey.
#[derive(Copy, Clone, Debug, PartialEq, Eq, Hash, Structural)]
pub enum CellColor {
    Empty,
    I,
    L,
    O,
    Z,
    T,
    J,
    S,
    Grey,
}

/// One of the seven piece kinds.
#[derive(Copy, Clone, Debug, PartialEq, Eq, Hash, Structural)]
pub enum PieceType {
    I,
    L,
    O,
    Z,
    T,
    J,
    S,
}

/// One of the four rotation states.
#[derive(Copy, Clone, Debug, PartialEq, Eq, Hash, Structural)]
pub enum RotationState {
    South,
    East,
    North,
    West,
}

/// A placed piece: kind, rotation, and the coordinates of its rotation centre
/// (x from the left, y from the bottom).
#[derive(Copy, Clone, Debug, PartialEq, Eq, Hash, Structural)]
pub struct Piece {
    pub kind: PieceType,
    pub rotation: RotationState,
    pub x: u32,
    pub y: u32,
}

impl CellColor {
    /// The number the format stores for this colour, 0 to 8.
    pub open spec fn number(self) -> int {
        match self {
            CellColor::Empty => 0,
            CellColor::I => 1,
            CellColor::L => 2,
            CellColor::O => 3,
            CellColor::Z => 4,
            CellColor::T => 5,
            CellColor::J => 6,
            CellColor::S => 7,
            CellColor::Grey => 8,
        }
    }

    /// The colour with a given number; `None` outside 0 to 8.
    pub open spec fn of_number(n: int) -> Option<CellColor> {
        if n == 0 {
            Some(CellColor::Empty)
        } else if n == 1 {
            Some(CellColor::I)
        } else if n == 2 {
            Some(CellColor::L)
        } else if n == 3 {
            Some(CellColor::O)
        } else if n == 4 {
            Some(CellColor::Z)
        } else if n == 5 {
            Some(CellColor::T)
        } else if n == 6 {
            Some(CellColor::J)
        } else if n == 7 {
            Some(CellColor::S)
        } else if n == 8 {
            Some(CellColor::Grey)
        } else {
            None
        }
    }

    /// The number of this colour.
    pub fn to_number(self) -> (n: usize)
        ensures
            n == self.number(),
            n <= 8,
    {
        match self {
            CellColor::Empty => 0,
            CellColor::I => 1,
            CellColor::L => 2,
            CellColor::O => 3,
            CellColor::Z => 4,
            CellColor::T => 5,
            CellColor::J => 6,
            CellColor::S => 7,
            CellColor::Grey => 8,
        }
    }
}

/// Numbers and colours correspond one to one on 0 to 8.
pub proof fn lemma_color_number(c: CellColor)
    ensures
        0 <= c.number() <= 8,
        CellColor::of_number(c.number()) == Some(c),
{
}

/// The colour stored as `value`; `None` when `value` is no colour number.
pub fn decode_cell_color(value: usize) -> (c: Option<CellColor>)
    ensures
        c == CellColor::of_number(value as int),
{
    match value {
        0 => Some(CellColor::Empty),
        1 => Some(CellColor::I),
        2 => Some(CellColor::L),
        3 => Some(CellColor::O),
        4 => Some(CellColor::Z),
        5 => Some(CellColor::T),
        6 => Some(CellColor::J),
        7 => Some(CellColor::S),
        8 => Some(CellColor::Grey),
        _ => None,
    }
}

impl PieceType {
    /// The number the format stores for this kind, 1 to 7.
    pub open spec fn number(self) -> int {
        match self {
            PieceType::I => 1,
            PieceType::L => 2,
            PieceType::O => 3,
            PieceType::Z => 4,
            PieceType::T => 5,
            PieceType::J => 6,
            PieceType::S => 7,
        }
    }

    /// The kind with a given number; `PieceType::S` stands for every number
    /// that is none of 1 to 6.
    pub open spec fn of_number(n: int) -> PieceType {
        if n == 1 {
            PieceType::I
        } else if n == 2 {
            PieceType::L
        } else if n == 3 {
            PieceType::O
        } else if n == 4 {
            PieceType::Z
        } else if n == 5 {
            PieceType::T
        } else if n == 6 {
            PieceType::J
        } else {
            PieceType::S
        }
    }

    /// The colour a locked piece of this kind leaves in the field.
    pub open spec fn color(self) -> CellColor {
        match self {
            PieceType::I => CellColor::I,
            PieceType::L => CellColor::L,
            PieceType::O => CellColor::O,
            PieceType::Z => CellColor::Z,
            PieceType::T => CellColor::T,
            PieceType::J => CellColor::J,
            PieceType::S => CellColor::S,
        }
    }

    /// The number of this kind.
    pub fn to_number(self) -> (n: u32)
        ensures
            n == self.number(),
            1 <= n <= 7,
    {
        match self {
            PieceType::I => 1,
            PieceType::L => 2,
            PieceType::O => 3,
            PieceType::Z => 4,
            PieceType::T => 5,
            PieceType::J => 6,
            PieceType::S => 7,
        }
    }

    /// The kind stored as `n`, for `n` from 1 to 7.
    pub fn from_number(n: u32) -> (kind: PieceType)
        requires
            1 <= n <= 7,
        ensures
            kind == PieceType::of_number(n as int),
            kind.number() == n,
    {
        match n {
            1 => PieceType::I,
            2 => PieceType::L,
            3 => PieceType::O,
            4 => PieceType::Z,
            5 => PieceType::T,
            6 => PieceType::J,
            _ => PieceType::S,
        }
    }
}

impl RotationState {
    /// The number the format stores for this rotation, 0 to 3.
    pub open spec fn number(self) -> int {
        match self {
            RotationState::South => 0,
            RotationState::East => 1,
            RotationState::North => 2,
            RotationState::West => 3,
        }
    }

    /// The rotation with a given number; `RotationState::West` stands for every
    /// number that is none of 0 to 2.
    pub open spec fn of_number(n: int) -> RotationState {
        if n == 0 {
            RotationState::South
        } else if n == 1 {
            RotationState::East
        } else if n == 2 {
            RotationState::North
        } else {
            RotationState::West
        }
    }

    /// The number of this rotation.
    pub fn to_number(self) -> (n: u32)
        ensures
            n == self.number(),
            n <= 3,
    {
        match self {
            RotationState::South => 0,
            RotationState::East => 1,
            RotationState::North => 2,
            RotationState::West => 3,
        }
    }

    /// The rotation stored as `n`, for `n` from 0 to 3.
    pub fn from_number(n: u32) -> (rotation: RotationState)
        requires
            n <= 3,
        ensures
            rotation == RotationState::of_number(n as int),
            rotation.number() == n,
    {
        match n {
            0 => RotationState::South,
            1 => RotationState::East,
            2 => RotationState::North,
            _ => RotationState::West,
        }
    }
}

impl From<PieceType> for CellColor {
    fn from(v: PieceType) -> (c: CellColor) {
        match v {
            PieceType::I => CellColor::I,
            PieceType::L => CellColor::L,
            PieceType::O => CellColor::O,
            PieceType::Z => CellColor::Z,
            PieceType::T => CellColor::T,
            PieceType::J => CellColor::J,
            PieceType::S => CellColor::S,
        }
    }
}

impl vstd::std_specs::convert::FromSpecImpl<PieceType> for CellColor {
    open spec fn obeys_from_spec() -> bool {
        true
    }

    open spec fn from_spec(v: PieceType) -> CellColor {
        v.color()
    }
}

/// The four cells of a kind in its North orientation, relative to the rotation
/// centre.
pub open spec fn base_offsets(kind: PieceType) -> Seq<(int, int)> {
    match kind {
        PieceType::I => seq![(-1int, 0int), (0int, 0int), (1int, 0int), (2int, 0int)],
        PieceType::O => seq![(0int, 0int), (1int, 0int), (0int, 1int), (1int, 1int)],
        PieceType::T => seq![(-1int, 0int), (0int, 0int), (1int, 0int), (0int, 1int)],
        PieceType::L => seq![(-1int, 0int), (0int, 0int), (1int, 0int), (1int, 1int)],
        PieceType::J => seq![(-1int, 0int), (0int, 0int), (1int, 0int), (-1int, 1int)],
        PieceType::S => seq![(-1int, 0int), (0int, 0int), (0int, 1int), (1int, 1int)],
        PieceType::Z => seq![(1int, 0int), (0int, 0int), (0int, 1int), (-1int, 1int)],
    }
}

/// An offset turned about the origin into the given rotation state.
pub open spec fn rotate(rotation: RotationState, c: (int, int)) -> (int, int) {
    match rotation {
        RotationState::North => c,
        RotationState::East => (c.1, -c.0),
        RotationState::South => (-c.0, -c.1),
        RotationState::West => (-c.1, c.0),
    }
}

/// What the format adds to a rotation centre to get the centre it stores: for
/// a few kinds and rotations the two conventions lie one cell apart.
pub open spec fn center_shift(kind: PieceType, rotation: RotationState) -> (int, int) {
    (
        match (kind, rotation) {
            (PieceType::S, RotationState::East) => 1,
            (PieceType::Z, RotationState::West) => -1,
            (PieceType::O, RotationState::West) => -1,
            (PieceType::O, RotationState::South) => -1,
            (PieceType::I, RotationState::South) => -1,
            _ => 0,
        },
        match (kind, rotation) {
            (PieceType::S, RotationState::North) => 1,
            (PieceType::Z, RotationState::North) => 1,
            (PieceType::O, RotationState::North) => 1,
            (PieceType::O, RotationState::West) => 1,
            (PieceType::I, RotationState::West) => 1,
            _ => 0,
        },
    )
}

impl Piece {
    /// The `k`-th cell the piece occupies, as (x, y) with y counted from the
    /// bottom.
    pub open spec fn cell(self, k: int) -> (int, int) {
        let o = rotate(self.rotation, base_offsets(self.kind)[k]);
        (o.0 + self.x, o.1 + self.y)
    }

    /// Whether `(x, y)` is one of the four cells of the piece.
    pub open spec fn covers(self, x: int, y: int) -> bool {
        exists|k: int| 0 <= k < 4 && self.cell(k) == (x, y)
    }

    /// Whether all four cells lie inside the 10 by 23 playfield.
    pub open spec fn fits(self) -> bool {
        forall|k: int|
            0 <= k < 4 ==> 0 <= (#[trigger] self.cell(k)).0 < 10 && 0 <= self.cell(k).1 < 23
    }

    /// The centre as the format stores it.
    pub open spec fn format_center(self) -> (int, int) {
        let s = center_shift(self.kind, self.rotation);
        (self.x + s.0, self.y + s.1)
    }

    /// Whether the stored centre addresses a playfield cell, so that the piece
    /// has a position number.
    pub open spec fn in_range(self) -> bool {
        let c = self.format_center();
        0 <= c.0 < 10 && 0 <= c.1 <= 22
    }

    /// The position number: the stored centre, counted row by row from the top
    /// left.
    pub open spec fn position(self) -> int {
        let c = self.format_center();
        c.0 + (22 - c.1) * 10
    }

    /// The number that stands for the whole piece: kind, rotation and position
    /// packed together.
    pub open spec fn number(self) -> int {
        self.kind.number() + 8 * self.rotation.number() + 32 * self.position()
    }

    /// The piece that a number stands for. The outer `None` is a number whose
    /// position lies left of or below every rotation centre; `Some(None)` is
    /// the number of "no piece".
    pub open spec fn of_number(n: int) -> Option<Option<Piece>> {
        let kind = n % 8;
        let position = n / 32 % 240;
        if kind == 0 {
            Some(None)
        } else {
            let kind = PieceType::of_number(kind);
            let rotation = RotationState::of_number(n / 8 % 4);
            let s = center_shift(kind, rotation);
            let x = position % 10 - s.0;
            let y = 22 - position / 10 - s.1;
            if x < 0 || y < 0 {
                None
            } else {
                Some(Some(Piece { kind, rotation, x: x as u32, y: y as u32 }))
            }
        }
    }

    /// The four cells the piece occupies.
    pub fn cells(&self) -> (cells: [(i64, i64); 4])
        ensures
            forall|k: int| 0 <= k < 4 ==> cells[k].0 == self.cell(k).0 && cells[k].1 == self.cell(k).1,
    {
        let base: [(i64, i64); 4] = match self.kind {
            PieceType::I => [(-1, 0), (0, 0), (1, 0), (2, 0)],
            PieceType::O => [(0, 0), (1, 0), (0, 1), (1, 1)],
            PieceType::T => [(-1, 0), (0, 0), (1, 0), (0, 1)],
            PieceType::L => [(-1, 0), (0, 0), (1, 0), (1, 1)],
            PieceType::J => [(-1, 0), (0, 0), (1, 0), (-1, 1)],
            PieceType::S => [(-1, 0), (0, 0), (0, 1), (1, 1)],
            PieceType::Z => [(1, 0), (0, 0), (0, 1), (-1, 1)],
        };
        assert(forall|k: int|
            0 <= k < 4 ==> base[k].0 == base_offsets(self.kind)[k].0 && base[k].1 == base_offsets(
                self.kind,
            )[k].1);
        let mut cells = base;
        let mut k: usize = 0;
        while k < 4
            invariant
                0 <= k <= 4,
                forall|j: int|
                    0 <= j < 4 ==> -1 <= base[j].0 <= 2 && -1 <= base[j].1 <= 2 && base[j].0
                        == base_offsets(self.kind)[j].0 && base[j].1 == base_offsets(self.kind)[j].1,
                forall|j: int|
                    0 <= j < k ==> cells[j].0 == self.cell(j).0 && cells[j].1 == self.cell(j).1,
            decreases 4 - k,
        {
            let (x, y) = base[k];
            let (rx, ry): (i64, i64) = match self.rotation {
                RotationState::North => (x, y),
                RotationState::East => (y, -x),
                RotationState::South => (-x, -y),
                RotationState::West => (-y, x),
            };
            cells[k] = (rx + self.x as i64, ry + self.y as i64);
            k += 1;
        }
        cells
    }

    /// Whether all four cells lie inside the playfield.
    pub fn fits_field(&self) -> (b: bool)
        ensures
            b == self.fits(),
    {
        let cells = self.cells();
        let mut k: usize = 0;
        while k < 4
            invariant
                0 <= k <= 4,
                forall|j: int|
                    0 <= j < 4 ==> cells[j].0 == self.cell(j).0 && cells[j].1 == self.cell(j).1,
                forall|j: int|
                    0 <= j < k ==> 0 <= (#[trigger] self.cell(j)).0 < 10 && 0 <= self.cell(j).1 < 23,
            decreases 4 - k,
        {
            let (x, y) = cells[k];
            if x < 0 || x >= 10 || y < 0 || y >= 23 {
                assert(!(0 <= self.cell(k as int).0 < 10 && 0 <= self.cell(k as int).1 < 23));
                return false;
            }
            k += 1;
        }
        true
    }

    /// Whether the piece has a position number.
    pub fn has_position(&self) -> (b: bool)
        ensures
            b == self.in_range(),
    {
        let (dx, dy) = shift_of(self.kind, self.rotation);
        let x: i64 = self.x as i64 + dx;
        let y: i64 = self.y as i64 + dy;
        0 <= x && x < 10 && 0 <= y && y <= 22
    }

    /// The position number of the piece.
    pub fn fumen_pos(&self) -> (pos: u32)
        requires
            self.in_range(),
        ensures
            pos == self.position(),
            pos < 230,
    {
        let (dx, dy) = shift_of(self.kind, self.rotation);
        let x: i64 = self.x as i64 + dx;
        let y: i64 = self.y as i64 + dy;
        (x + (22 - y) * 10) as u32
    }

    /// The number that stands for the whole piece.
    pub fn fumen_number(&self) -> (n: u32)
        requires
            self.in_range(),
        ensures
            n == self.number(),
            1 <= n < 7680,
    {
        self.kind.to_number() + 8 * self.rotation.to_number() + 32 * self.fumen_pos()
    }

    /// The piece that a stored number stands for.
    pub fn from_fumen_number(n: u32) -> (piece: Option<Option<Piece>>)
        ensures
            piece == Piece::of_number(n as int),
    {
        let kind_number: u32 = n % 8;
        if kind_number == 0 {
            return Some(None);
        }
        let kind = PieceType::from_number(kind_number);
        let rotation = RotationState::from_number(n / 8 % 4);
        let position: u32 = n / 32 % 240;
        let (dx, dy) = shift_of(kind, rotation);
        let x: i64 = (position % 10) as i64 - dx;
        let y: i64 = 22 - (position / 10) as i64 - dy;
        if x < 0 || y < 0 {
            None
        } else {
            Some(Some(Piece { kind, rotation, x: x as u32, y: y as u32 }))
        }
    }
}

/// The shift between the two centre conventions, for a kind and a rotation.
pub fn shift_of(kind: PieceType, rotation: RotationState) -> (s: (i64, i64))
    ensures
        s.0 == center_shift(kind, rotation).0,
        s.1 == center_shift(kind, rotation).1,
{
    let dx: i64 = match (kind, rotation) {
        (PieceType::S, RotationState::East) => 1,
        (PieceType::Z, RotationState::West) => -1,
        (PieceType::O, RotationState::West) => -1,
        (PieceType::O, RotationState::South) => -1,
        (PieceType::I, RotationState::South) => -1,
        _ => 0,
    };
    let dy: i64 = match (kind, rotation) {
        (PieceType::S, RotationState::North) => 1,
        (PieceType::Z, RotationState::North) => 1,
        (PieceType::O, RotationState::North) => 1,
        (PieceType::O, RotationState::West) => 1,
        (PieceType::I, RotationState::West) => 1,
        _ => 0,
    };
    (dx, dy)
}

/// A piece that has a position number is the piece its number stands for, and
/// the number leaves the bits above it free.
pub proof fn lemma_piece_number_round_trip(p: Piece)
    requires
        p.in_range(),
    ensures
        1 <= p.number() < 7680,
        0 <= p.position() < 230,
        Piece::of_number(p.number()) == Some(Some(p)),
{
    let n = p.number();
    let k = p.kind.number();
    let r = p.rotation.number();
    let pos = p.position();
    assert(n % 8 == k);
    assert(n / 8 == r + 4 * pos);
    assert(n / 8 % 4 == r);
    assert(n / 32 == pos);
    assert(PieceType::of_number(k) == p.kind);
    assert(RotationState::of_number(r) == p.rotation);
    let c = p.format_center();
    assert(pos % 10 == c.0);
    assert(pos / 10 == 22 - c.1);
}

} // verus!
