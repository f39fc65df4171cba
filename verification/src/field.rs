//! Cells with display attributes and the rectangular field that holds them.
use vstd::prelude::*;

verus! {

/// The byte drawn for anything that cannot be seen.
pub const NONE: u8 = 32u8;

/// The player has stepped on the cell.
pub const IS_VISITED: u32 = 0b00000001u32;

/// The cell stays unseen until the player searches for it.
pub const IS_HIDDEN: u32 = 0b00000010u32;

/// The cell is in sight.
pub const IS_VISIBLE: u32 = 0b00000100u32;

/// The cell has been drawn at least once.
pub const IS_DRAWN: u32 = 0b00001000u32;

/// The cell blocks movement and sight.
pub const IS_BLCOKING: u32 = 0b00010000u32;

/// Union of the five flags.
pub const ALL_FLAGS: u32 = 0b00011111u32;

/// Anything that shows itself as one byte.
pub trait Drawable {
    fn byte(&self) -> u8;
}

/// What a cell holds: any value that can be copied, printed and drawn.
pub trait Surface: Clone + core::fmt::Debug + Drawable {

}

/// A set of the five cell flags, each independent of the others.
#[derive(Clone, Copy, Debug, PartialEq, Eq, Hash, Structural)]
pub struct CellAttr {
    bits: u32,
}

impl View for CellAttr {
    type V = u32;

    closed spec fn view(&self) -> u32 {
        self.bits
    }
}

impl CellAttr {
    /// Every flag of `mask` is set.
    pub open spec fn has(self, mask: u32) -> bool {
        self@ & mask == mask
    }

    /// No flag is set.
    pub fn empty() -> (a: CellAttr)
        ensures
            a@ == 0,
    {
        CellAttr { bits: 0 }
    }

    /// The flags of `bits`; bits that name no flag are dropped.
    pub fn from_bits_truncate(bits: u32) -> (a: CellAttr)
        ensures
            a@ == bits & ALL_FLAGS,
    {
        CellAttr { bits: bits & ALL_FLAGS }
    }

    pub fn bits(&self) -> (b: u32)
        ensures
            b == self@,
    {
        self.bits
    }

    pub fn is_empty(&self) -> (b: bool)
        ensures
            b == (self@ == 0),
    {
        self.bits == 0
    }

    /// Whether every flag of `other` is set in `self`.
    pub fn contains(&self, other: CellAttr) -> (b: bool)
        ensures
            b == self.has(other@),
    {
        self.bits & other.bits == other.bits
    }

    /// Sets the flags of `other`.
    pub fn insert(&mut self, other: CellAttr)
        ensures
            final(self)@ == old(self)@ | other@,
    {
        self.bits = self.bits | other.bits;
    }

    /// Clears the flags of `other`.
    pub fn remove(&mut self, other: CellAttr)
        ensures
            final(self)@ == old(self)@ & !other@,
    {
        self.bits = self.bits & !other.bits;
    }

    /// Sets or clears the flags of `other`.
    pub fn set(&mut self, other: CellAttr, value: bool)
        ensures
            final(self)@ == if value {
                old(self)@ | other@
            } else {
                old(self)@ & !other@
            },
    {
        if value {
            self.insert(other);
        } else {
            self.remove(other);
        }
    }
}

impl Default for CellAttr {
    fn default() -> (a: CellAttr)
        ensures
            a@ == 0,
    {
        CellAttr { bits: 0 }
    }
}

/// Setting some flags and clearing others never touches a flag outside the
/// two masks: the flags are independent.
pub proof fn lemma_flags_independent(bits: u32, set: u32, flag: u32)
    requires
        set & flag == 0,
    ensures
        (bits | set) & flag == bits & flag,
        (bits & !set) & flag == bits & flag,
        (bits | set) & set == set,
        (bits & !set) & set == 0,
{
    assert((bits | set) & flag == bits & flag) by (bit_vector)
        requires
            set & flag == 0,
    ;
    assert((bits & !set) & flag == bits & flag) by (bit_vector)
        requires
            set & flag == 0,
    ;
    assert((bits | set) & set == set) by (bit_vector);
    assert((bits & !set) & set == 0) by (bit_vector);
}

/// One cell of the field: what lies there and how it is shown.
#[derive(Clone, Copy, Debug)]
pub struct Cell<S: Surface> {
    pub surface: S,
    pub attr: CellAttr,
}

impl<S: Surface> Cell<S> {
    /// A cell holding `surface` with no flag set.
    pub fn new(surface: S) -> (c: Cell<S>)
        ensures
            c.surface == surface,
            c.attr@ == 0,
    {
        Cell { surface, attr: CellAttr::empty() }
    }

    /// `self` has the flags of `origin` and a clone of its surface.
    pub open spec fn copy_of(self, origin: Cell<S>) -> bool {
        self.attr == origin.attr && cloned(origin.surface, self.surface)
    }

    /// Whether the cell is in sight.
    pub open spec fn visible(&self) -> bool {
        self.attr.has(IS_VISIBLE)
    }

    /// Whether the cell is in sight.
    pub fn is_visible(&self) -> (b: bool)
        ensures
            b == self.visible(),
            b == (self.attr@ & IS_VISIBLE != 0),
    {
        proof {
            let a = self.attr@;
            assert((a & 4u32 == 4u32) == (a & 4u32 != 0)) by (bit_vector);
        }
        self.attr.contains(CellAttr { bits: IS_VISIBLE })
    }
}

impl<S: Surface> Cell<S> {
    /// `b` is what the cell shows: a byte of its surface where the cell is
    /// in sight, the blank byte elsewhere.
    pub open spec fn shows(&self, b: u8) -> bool {
        if self.visible() {
            call_ensures(S::byte, (&self.surface,), b)
        } else {
            b == NONE
        }
    }
}

impl<S: Surface> Drawable for Cell<S> {
    fn byte(&self) -> (b: u8)
        ensures
            self.shows(b),
    {
        if self.is_visible() {
            self.surface.byte()
        } else {
            NONE
        }
    }
}

impl<S: Surface + Default> Default for Cell<S> {
    fn default() -> (c: Cell<S>)
        ensures
            c.attr@ == 0,
            call_ensures(S::default, (), c.surface),
            !c.visible(),
            forall|b: u8| c.shows(b) <==> b == NONE,
    {
        proof {
            assert(0u32 & 4u32 != 4u32) by (bit_vector);
        }
        Cell { surface: S::default(), attr: CellAttr::empty() }
    }
}

/// Why a lookup in a field failed: the column or the row that is outside it.
#[derive(Clone, Copy, Debug, PartialEq, Eq, Hash, Structural)]
pub enum IndexError {
    X(i64),
    Y(i64),
}

/// A rectangle of cells, stored row by row.
#[derive(Clone, Debug)]
pub struct Field<S: Surface> {
    inner: Vec<Vec<Cell<S>>>,
}

impl<S: Surface> Default for Field<S> {
    /// The field without rows.
    fn default() -> (f: Field<S>)
        ensures
            f.wf(),
            f.spec_height() == 0,
            f.spec_width() == 0,
    {
        Field { inner: Vec::new() }
    }
}

/// Every row is as long as the first.
pub open spec fn rectangular<S: Surface>(rows: Seq<Vec<Cell<S>>>) -> bool {
    forall|i: int| 0 <= i < rows.len() ==> (#[trigger] rows[i]).len() == rows[0].len()
}

/// Whether every row is as long as the first.
pub fn is_rectangular<S: Surface>(rows: &Vec<Vec<Cell<S>>>) -> (b: bool)
    ensures
        b == rectangular(rows@),
{
    let mut i: usize = 0;
    while i < rows.len()
        invariant
            i <= rows.len(),
            forall|j: int| 0 <= j < i ==> (#[trigger] rows@[j]).len() == rows@[0].len(),
        decreases rows.len() - i,
    {
        if rows[i].len() != rows[0].len() {
            return false;
        }
        i += 1;
    }
    true
}

impl<S: Surface> Field<S> {
    /// The rows of the field, top row first.
    pub closed spec fn rows(&self) -> Seq<Vec<Cell<S>>> {
        self.inner@
    }

    /// The field is a true rectangle.
    pub open spec fn wf(&self) -> bool {
        rectangular(self.rows())
    }

    /// Number of rows.
    pub open spec fn spec_height(&self) -> int {
        self.rows().len() as int
    }

    /// Length of every row; 0 for a field without rows.
    pub open spec fn spec_width(&self) -> int {
        if self.rows().len() == 0 {
            0
        } else {
            self.rows()[0].len() as int
        }
    }

    /// The coordinate names a cell of the field.
    pub open spec fn inside(&self, x: int, y: int) -> bool {
        0 <= x < self.spec_width() && 0 <= y < self.spec_height()
    }

    /// The cell in column `x` of row `y`.
    pub open spec fn at(&self, x: int, y: int) -> Cell<S> {
        self.rows()[y][x]
    }

    /// What a lookup at `(x, y)` reports where it finds no cell.
    pub open spec fn lookup_error(&self, x: int, y: int) -> Option<IndexError> {
        if x < 0 {
            Some(IndexError::X(x as i64))
        } else if y < 0 || y >= self.spec_height() {
            Some(IndexError::Y(y as i64))
        } else if x >= self.spec_width() {
            Some(IndexError::X(x as i64))
        } else {
            None
        }
    }

    /// A field of `height` rows of `width` cells, each a clone of `cell`.
    pub fn new(width: usize, height: usize, cell: Cell<S>) -> (f: Field<S>)
        ensures
            f.wf(),
            f.spec_height() == height,
            height > 0 ==> f.spec_width() == width,
            forall|x: int, y: int|
                0 <= x < width && 0 <= y < height ==> (#[trigger] f.at(x, y)).copy_of(cell),
    {
        let mut inner: Vec<Vec<Cell<S>>> = Vec::new();
        let mut y: usize = 0;
        while y < height
            invariant
                y <= height,
                inner@.len() == y,
                forall|j: int| 0 <= j < y ==> (#[trigger] inner@[j]).len() == width,
                forall|i: int, j: int|
                    0 <= i < width && 0 <= j < y ==> (#[trigger] inner@[j][i]).copy_of(cell),
            decreases height - y,
        {
            let mut row: Vec<Cell<S>> = Vec::new();
            let mut x: usize = 0;
            while x < width
                invariant
                    x <= width,
                    row@.len() == x,
                    forall|i: int|
                        0 <= i < x ==> (#[trigger] row@[i]).copy_of(cell),
                decreases width - x,
            {
                let copy = Cell { surface: cell.surface.clone(), attr: cell.attr };
                assert(copy.copy_of(cell));
                row.push(copy);
                x += 1;
            }
            inner.push(row);
            assert(forall|i: int| 0 <= i < width ==> inner@[y as int][i] == row@[i]);
            y += 1;
        }
        Field { inner }
    }

    /// The field made of `rows`, which must all have one length.
    pub fn from_rows(rows: Vec<Vec<Cell<S>>>) -> (f: Field<S>)
        requires
            rectangular(rows@),
        ensures
            f.wf(),
            f.rows() == rows@,
    {
        Field { inner: rows }
    }

    pub fn height(&self) -> (h: usize)
        ensures
            h == self.spec_height(),
    {
        self.inner.len()
    }

    pub fn width(&self) -> (w: usize)
        ensures
            w == self.spec_width(),
    {
        if self.inner.len() == 0 {
            0
        } else {
            self.inner[0].len()
        }
    }

    /// The cell at column `x` of row `y`, or the coordinate that is outside
    /// the field: a negative `x` first, then `y`, then an `x` past the row.
    pub fn try_get_xy(&self, x: i64, y: i64) -> (r: Result<&Cell<S>, IndexError>)
        requires
            self.wf(),
        ensures
            r.is_ok() <==> self.inside(x as int, y as int),
            r matches Ok(c) ==> *c == self.at(x as int, y as int),
            r matches Err(e) ==> Some(e) == self.lookup_error(x as int, y as int),
    {
        if x < 0 {
            return Err(IndexError::X(x));
        }
        if y < 0 || y as u64 >= self.inner.len() as u64 {
            return Err(IndexError::Y(y));
        }
        let row = &self.inner[y as usize];
        if x as u64 >= row.len() as u64 {
            return Err(IndexError::X(x));
        }
        Ok(&row[x as usize])
    }

    /// As `try_get_xy`, for writing: the cell handed out is the only part
    /// of the field that can change.
    pub fn try_get_mut_xy(&mut self, x: i64, y: i64) -> (r: Result<&mut Cell<S>, IndexError>)
        requires
            old(self).wf(),
        ensures
            r.is_ok() <==> old(self).inside(x as int, y as int),
            r matches Err(e) ==> Some(e) == old(self).lookup_error(x as int, y as int),
            r.is_err() ==> *final(self) == *old(self),
            final(self).wf(),
            final(self).spec_width() == old(self).spec_width(),
            final(self).spec_height() == old(self).spec_height(),
            r matches Ok(c) ==> {
                &&& *c == old(self).at(x as int, y as int)
                &&& final(self).rows().len() == old(self).rows().len()
                &&& forall|j: int|
                    0 <= j < old(self).rows().len() && j != y ==> #[trigger] final(self).rows()[j]
                        == old(self).rows()[j]
                &&& final(self).rows()[y as int]@ == old(self).rows()[y as int]@.update(
                    x as int,
                    *final(c),
                )
            },
    {
        if x < 0 {
            return Err(IndexError::X(x));
        }
        if y < 0 || y as u64 >= self.inner.len() as u64 {
            return Err(IndexError::Y(y));
        }
        if x as u64 >= self.inner[y as usize].len() as u64 {
            return Err(IndexError::X(x));
        }
        Ok(&mut self.inner[y as usize][x as usize])
    }
}

} // verus!
