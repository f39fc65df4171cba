use maze_field::field::{
    is_rectangular, Cell, CellAttr, Drawable, Field, IndexError, Surface, IS_BLCOKING, IS_DRAWN,
    IS_HIDDEN, IS_VISIBLE, IS_VISITED, NONE,
};

#[derive(Clone, Debug, Default, PartialEq)]
struct Tile(u8);

impl Drawable for Tile {
    fn byte(&self) -> u8 {
        self.0
    }
}

impl Surface for Tile {}

fn flag(bits: u32) -> CellAttr {
    CellAttr::from_bits_truncate(bits)
}

fn numbered(width: usize, height: usize) -> Field<Tile> {
    let mut rows = Vec::new();
    for y in 0..height {
        let mut row = Vec::new();
        for x in 0..width {
            row.push(Cell::new(Tile((y * width + x) as u8)));
        }
        rows.push(row);
    }
    assert!(is_rectangular(&rows));
    Field::from_rows(rows)
}

#[test]
fn default_cell_is_blank() {
    let cell: Cell<Tile> = Cell::default();
    assert!(!cell.is_visible());
    assert!(cell.attr.is_empty());
    assert_eq!(cell.byte(), NONE);
    assert_eq!(NONE, b' ');
}

#[test]
fn hidden_surface_renders_blank_whatever_it_holds() {
    let mut cell = Cell::new(Tile(b'#'));
    assert_eq!(cell.byte(), b' ');
    cell.attr.insert(flag(IS_VISITED | IS_HIDDEN | IS_DRAWN | IS_BLCOKING));
    assert!(!cell.is_visible());
    assert_eq!(cell.byte(), b' ');
}

#[test]
fn visible_cell_renders_its_surface() {
    let mut cell = Cell::new(Tile(b'#'));
    cell.attr.insert(flag(IS_VISIBLE));
    assert!(cell.is_visible());
    assert_eq!(cell.byte(), b'#');
    cell.attr.remove(flag(IS_VISIBLE));
    assert!(!cell.is_visible());
    assert_eq!(cell.byte(), b' ');
}

#[test]
fn flags_are_independent() {
    let mut attr = CellAttr::empty();
    attr.insert(flag(IS_VISITED));
    attr.insert(flag(IS_BLCOKING));
    assert_eq!(attr.bits(), 0b10001);
    assert!(attr.contains(flag(IS_VISITED)));
    assert!(attr.contains(flag(IS_VISITED | IS_BLCOKING)));
    assert!(!attr.contains(flag(IS_VISITED | IS_HIDDEN)));
    assert!(!attr.contains(flag(IS_VISIBLE)));
    attr.set(flag(IS_HIDDEN), true);
    assert_eq!(attr.bits(), 0b10011);
    attr.set(flag(IS_VISITED), false);
    assert_eq!(attr.bits(), 0b10010);
    attr.remove(flag(IS_DRAWN));
    assert_eq!(attr.bits(), 0b10010);
}

#[test]
fn unknown_bits_are_dropped() {
    assert_eq!(flag(0xffff_ffff).bits(), 0b11111);
    assert_eq!(flag(0b100000).bits(), 0);
    assert_eq!(CellAttr::default(), CellAttr::empty());
}

#[test]
fn lookups_inside_the_field() {
    let field = numbered(4, 3);
    assert_eq!(field.width(), 4);
    assert_eq!(field.height(), 3);
    for y in 0..3i64 {
        for x in 0..4i64 {
            let cell = field.try_get_xy(x, y).unwrap();
            assert_eq!(cell.surface, Tile((y * 4 + x) as u8));
            let again = field.try_get_xy(x, y).unwrap();
            assert!(std::ptr::eq(cell, again));
        }
    }
}

#[test]
fn lookups_outside_the_field() {
    let field = numbered(4, 3);
    assert_eq!(field.try_get_xy(4, 0).err(), Some(IndexError::X(4)));
    assert_eq!(field.try_get_xy(0, 3).err(), Some(IndexError::Y(3)));
    assert_eq!(field.try_get_xy(-1, 0).err(), Some(IndexError::X(-1)));
    assert_eq!(field.try_get_xy(0, -1).err(), Some(IndexError::Y(-1)));
    assert_eq!(field.try_get_xy(-1, -1).err(), Some(IndexError::X(-1)));
    assert_eq!(field.try_get_xy(9, 9).err(), Some(IndexError::Y(9)));
    assert_eq!(field.try_get_xy(-2, 9).err(), Some(IndexError::X(-2)));
    assert_eq!(field.try_get_xy(i64::MAX, i64::MAX).err(), Some(IndexError::Y(i64::MAX)));
}

#[test]
fn writes_reach_the_cell_and_no_other() {
    let mut field = numbered(4, 3);
    {
        let cell = field.try_get_mut_xy(2, 1).unwrap();
        cell.surface = Tile(b'@');
        cell.attr.insert(flag(IS_VISIBLE));
    }
    assert_eq!(field.try_get_xy(2, 1).unwrap().byte(), b'@');
    for y in 0..3i64 {
        for x in 0..4i64 {
            if (x, y) != (2, 1) {
                let cell = field.try_get_xy(x, y).unwrap();
                assert_eq!(cell.surface, Tile((y * 4 + x) as u8));
                assert!(cell.attr.is_empty());
            }
        }
    }
    assert_eq!(field.try_get_mut_xy(4, 1).err(), Some(IndexError::X(4)));
    assert_eq!(field.try_get_mut_xy(0, 3).err(), Some(IndexError::Y(3)));
    assert_eq!(field.try_get_mut_xy(-1, 7).err(), Some(IndexError::X(-1)));
}

#[test]
fn field_of_copies() {
    let mut proto = Cell::new(Tile(b'.'));
    proto.attr.insert(flag(IS_HIDDEN));
    let field = Field::new(5, 2, proto);
    assert_eq!(field.width(), 5);
    assert_eq!(field.height(), 2);
    for y in 0..2i64 {
        for x in 0..5i64 {
            let cell = field.try_get_xy(x, y).unwrap();
            assert_eq!(cell.surface, Tile(b'.'));
            assert_eq!(cell.attr.bits(), IS_HIDDEN);
        }
    }
    let empty: Field<Tile> = Field::new(5, 0, Cell::new(Tile(0)));
    assert_eq!(empty.width(), 0);
    assert_eq!(empty.try_get_xy(0, 0).err(), Some(IndexError::Y(0)));
}

#[test]
fn ragged_rows_are_told_apart() {
    let ragged = vec![vec![Cell::new(Tile(1)), Cell::new(Tile(2))], vec![Cell::new(Tile(3))]];
    assert!(!is_rectangular(&ragged));
    let even = vec![vec![Cell::new(Tile(1))], vec![Cell::new(Tile(3))]];
    assert!(is_rectangular(&even));
    let none: Vec<Vec<Cell<Tile>>> = Vec::new();
    assert!(is_rectangular(&none));
}
