//! The text console: colors, attribute byte, and the screen contents with
//! cursor movement and scrolling.
use vstd::prelude::*;
use vstd::string::*;

verus! {

/// The sixteen text-mode colors.
#[derive(Debug, Clone, Copy, PartialEq, Eq, Structural)]
pub enum Color {
    Black,
    Blue,
    Green,
    Cyan,
    Red,
    Magenta,
    Brown,
    LightGray,
    DarkGray,
    LightBlue,
    LightGreen,
    LightCyan,
    LightRed,
    Pink,
    Yellow,
    White,
}

/// The 4-bit code of a color.
pub open spec fn color_code(c: Color) -> u8 {
    match c {
        Color::Black => 0,
        Color::Blue => 1,
        Color::Green => 2,
        Color::Cyan => 3,
        Color::Red => 4,
        Color::Magenta => 5,
        Color::Brown => 6,
        Color::LightGray => 7,
        Color::DarkGray => 8,
        Color::LightBlue => 9,
        Color::LightGreen => 10,
        Color::LightCyan => 11,
        Color::LightRed => 12,
        Color::Pink => 13,
        Color::Yellow => 14,
        Color::White => 15,
    }
}

impl Color {
    /// The 4-bit code of the color.
    pub fn code(self) -> (r: u8)
        ensures
            r == color_code(self),
    {
        match self {
            Color::Black => 0,
            Color::Blue => 1,
            Color::Green => 2,
            Color::Cyan => 3,
            Color::Red => 4,
            Color::Magenta => 5,
            Color::Brown => 6,
            Color::LightGray => 7,
            Color::DarkGray => 8,
            Color::LightBlue => 9,
            Color::LightGreen => 10,
            Color::LightCyan => 11,
            Color::LightRed => 12,
            Color::Pink => 13,
            Color::Yellow => 14,
            Color::White => 15,
        }
    }
}

/// The attribute byte: background in the high nibble, foreground in the
/// low one, each taken modulo 16.
pub open spec fn attr_of(fg: u8, bg: u8) -> u8 {
    ((bg % 16) * 16 + fg % 16) as u8
}

/// Columns of the text screen.
pub const COLS: usize = 80;

/// Rows of the text screen.
pub const ROWS: usize = 25;

/// Bytes of the text screen: a character and an attribute per cell.
pub const SCREEN_BYTES: usize = 4000;

/// The screen scrolled up one row, the freed bottom row blank in `attr`.
pub open spec fn scrolled(cells: Seq<u8>, attr: u8) -> Seq<u8> {
    Seq::new(
        SCREEN_BYTES as nat,
        |i: int|
            if i < SCREEN_BYTES - 2 * COLS {
                cells[i + 2 * COLS]
            } else if i % 2 == 0 {
                0x20u8
            } else {
                attr
            },
    )
}

/// Row and screen after a line feed from `row`.
pub open spec fn after_newline(row: nat, cells: Seq<u8>, attr: u8) -> (nat, Seq<u8>) {
    if row < ROWS - 1 {
        (row + 1, cells)
    } else {
        ((ROWS - 1) as nat, scrolled(cells, attr))
    }
}

/// Row, column and screen after writing byte `b` at (`row`, `col`): a line
/// feed moves to the next row; any other byte fills the cell and advances,
/// wrapping at the end of the row.
pub open spec fn after_byte(row: nat, col: nat, cells: Seq<u8>, attr: u8, b: u8) -> (
    nat,
    nat,
    Seq<u8>,
) {
    if b == 0x0A {
        let n = after_newline(row, cells, attr);
        (n.0, 0, n.1)
    } else {
        let idx = ((row * COLS + col) * 2) as int;
        let c1 = cells.update(idx, b).update(idx + 1, attr);
        if col + 1 < COLS {
            (row, col + 1, c1)
        } else {
            let n = after_newline(row, c1, attr);
            (n.0, 0, n.1)
        }
    }
}

/// Row, column and screen after writing each of `bs` in turn.
pub open spec fn after_bytes(row: nat, col: nat, cells: Seq<u8>, attr: u8, bs: Seq<u8>) -> (
    nat,
    nat,
    Seq<u8>,
)
    decreases bs.len(),
{
    if bs.len() == 0 {
        (row, col, cells)
    } else {
        let n = after_byte(row, col, cells, attr, bs[0]);
        after_bytes(n.0, n.1, n.2, attr, bs.drop_first())
    }
}

/// A blank screen in `attr`.
pub open spec fn blank(attr: u8) -> Seq<u8> {
    Seq::new(SCREEN_BYTES as nat, |i: int| if i % 2 == 0 { 0x20u8 } else { attr })
}

/// The text console: cursor, current attribute and the screen contents
/// (character and attribute of each cell, row by row).
pub struct TextWriter {
    row: usize,
    col: usize,
    attr: u8,
    cells: Vec<u8>,
}

impl TextWriter {
    /// The screen contents.
    pub closed spec fn screen(&self) -> Seq<u8> {
        self.cells@
    }

    /// The cursor row.
    pub closed spec fn row_at(&self) -> nat {
        self.row as nat
    }

    /// The cursor column.
    pub closed spec fn col_at(&self) -> nat {
        self.col as nat
    }

    /// The attribute of the following characters.
    pub closed spec fn attribute(&self) -> u8 {
        self.attr
    }

    /// The attribute of the following characters.
    pub fn attr(&self) -> (r: u8)
        ensures
            r == self.attribute(),
    {
        self.attr
    }

    /// The cursor as row and column.
    pub fn cursor(&self) -> (r: (usize, usize))
        ensures
            r.0 as nat == self.row_at(),
            r.1 as nat == self.col_at(),
    {
        (self.row, self.col)
    }

    /// Cursor on the screen and a screen of the right size.
    pub closed spec fn wf(&self) -> bool {
        &&& self.row < ROWS
        &&& self.col < COLS
        &&& self.screen().len() == SCREEN_BYTES
    }

    /// A console at the top left, white on black, on a screen of zeros.
    pub fn new() -> (r: Self)
        ensures
            r.wf(),
            r.row_at() == 0 && r.col_at() == 0 && r.attribute() == 0x0F,
            r.screen() == Seq::new(SCREEN_BYTES as nat, |i: int| 0u8),
    {
        let mut cells: Vec<u8> = Vec::new();
        let mut i: usize = 0;
        while i < SCREEN_BYTES
            invariant
                i <= SCREEN_BYTES,
                cells@ == Seq::new(i as nat, |j: int| 0u8),
            decreases SCREEN_BYTES - i,
        {
            cells.push(0);
            assert(cells@ =~= Seq::new((i + 1) as nat, |j: int| 0u8));
            i += 1;
        }
        TextWriter { row: 0, col: 0, attr: 0x0F, cells }
    }

    /// The bytes of the screen, row by row.
    pub fn cells(&self) -> (r: &Vec<u8>)
        ensures
            r@ == self.screen(),
    {
        &self.cells
    }

    /// Moves to the start of the next row, scrolling when on the last one.
    pub fn newline(&mut self)
        requires
            old(self).wf(),
        ensures
            final(self).wf(),
            final(self).col_at() == 0,
            final(self).attribute() == old(self).attribute(),
            (final(self).row_at(), final(self).screen()) == after_newline(
                old(self).row_at(),
                old(self).screen(),
                old(self).attribute(),
            ),
    {
        self.col = 0;
        if self.row < ROWS - 1 {
            self.row += 1;
            return;
        }
        let ghost before = self.cells@;
        let mut i: usize = 0;
        while i < SCREEN_BYTES - 2 * COLS
            invariant
                i <= SCREEN_BYTES - 2 * COLS,
                self.col == 0,
                self.row == old(self).row,
                self.attr == old(self).attr,
                self.cells@.len() == SCREEN_BYTES,
                before.len() == SCREEN_BYTES,
                forall|j: int| 0 <= j < i ==> #[trigger] self.cells@[j] == before[j + 2 * COLS],
                forall|j: int| i + 2 * COLS <= j < SCREEN_BYTES ==> #[trigger] self.cells@[j]
                    == before[j],
            decreases SCREEN_BYTES - 2 * COLS - i,
        {
            let v = self.cells[i + 2 * COLS];
            self.cells.set(i, v);
            i += 1;
        }
        while i < SCREEN_BYTES
            invariant
                SCREEN_BYTES - 2 * COLS <= i <= SCREEN_BYTES,
                self.col == 0,
                self.row == old(self).row,
                self.attr == old(self).attr,
                self.cells@.len() == SCREEN_BYTES,
                forall|j: int| 0 <= j < SCREEN_BYTES - 2 * COLS ==> #[trigger] self.cells@[j]
                    == before[j + 2 * COLS],
                forall|j: int|
                    SCREEN_BYTES - 2 * COLS <= j < i ==> #[trigger] self.cells@[j] == (if j % 2
                        == 0 {
                        0x20u8
                    } else {
                        self.attr
                    }),
            decreases SCREEN_BYTES - i,
        {
            let v = if i % 2 == 0 {
                0x20u8
            } else {
                self.attr
            };
            self.cells.set(i, v);
            i += 1;
        }
        assert(self.cells@ =~= scrolled(before, self.attr));
        self.row = ROWS - 1;
    }

    /// Puts one byte at the cursor in the current attribute and advances;
    /// a line feed moves to the next row.
    pub fn write_byte(&mut self, b: u8)
        requires
            old(self).wf(),
        ensures
            final(self).wf(),
            final(self).attribute() == old(self).attribute(),
            (final(self).row_at(), final(self).col_at(), final(self).screen()) == after_byte(
                old(self).row_at(),
                old(self).col_at(),
                old(self).screen(),
                old(self).attribute(),
                b,
            ),
    {
        if b == 0x0A {
            self.newline();
            return;
        }
        let idx = (self.row * COLS + self.col) * 2;
        assert(idx + 1 < SCREEN_BYTES) by (nonlinear_arith)
            requires
                idx == (self.row * 80 + self.col) * 2,
                self.row < 25,
                self.col < 80,
        ;
        self.cells.set(idx, b);
        self.cells.set(idx + 1, self.attr);
        self.col += 1;
        if self.col >= COLS {
            self.col = COLS - 1;
            self.newline();
        }
    }

    /// Writes each byte of `s` in turn.
    pub fn write_str(&mut self, s: &str)
        requires
            old(self).wf(),
        ensures
            final(self).wf(),
            final(self).attribute() == old(self).attribute(),
            (final(self).row_at(), final(self).col_at(), final(self).screen()) == after_bytes(
                old(self).row_at(),
                old(self).col_at(),
                old(self).screen(),
                old(self).attribute(),
                s.spec_bytes(),
            ),
    {
        let bytes = s.as_bytes();
        let mut i: usize = 0;
        assert(bytes@.skip(0) =~= bytes@);
        while i < bytes.len()
            invariant
                self.wf(),
                self.attr == old(self).attr,
                i <= bytes@.len(),
                bytes@ == s.spec_bytes(),
                after_bytes(
                    old(self).row as nat,
                    old(self).col as nat,
                    old(self).cells@,
                    old(self).attr,
                    bytes@,
                ) == after_bytes(
                    self.row as nat,
                    self.col as nat,
                    self.cells@,
                    self.attr,
                    bytes@.skip(i as int),
                ),
            decreases bytes@.len() - i,
        {
            assert(bytes@.skip(i as int)[0] == bytes@[i as int]);
            assert(bytes@.skip(i as int).drop_first() =~= bytes@.skip(i + 1));
            self.write_byte(bytes[i]);
            i += 1;
        }
    }
}

/// Blanks the whole screen in the current attribute and homes the cursor.
pub fn vga_clear(w: &mut TextWriter)
    requires
        old(w).wf(),
    ensures
        final(w).wf(),
        final(w).row_at() == 0 && final(w).col_at() == 0,
        final(w).attribute() == old(w).attribute(),
        final(w).screen() == blank(old(w).attribute()),
{
    let mut i: usize = 0;
    while i < SCREEN_BYTES
        invariant
            i <= SCREEN_BYTES,
            w.cells@.len() == SCREEN_BYTES,
            w.attr == old(w).attr,
            w.row < ROWS,
            w.col < COLS,
            forall|j: int| 0 <= j < i ==> #[trigger] w.cells@[j] == blank(w.attr)[j],
        decreases SCREEN_BYTES - i,
    {
        let v = if i % 2 == 0 {
            0x20u8
        } else {
            w.attr
        };
        w.cells.set(i, v);
        i += 1;
    }
    assert(w.cells@ =~= blank(w.attr));
    w.row = 0;
    w.col = 0;
}

/// Sets the attribute used for the following characters from two raw codes.
pub fn vga_set_color(w: &mut TextWriter, fg: u8, bg: u8)
    ensures
        final(w).attribute() == attr_of(fg, bg),
        final(w).row_at() == old(w).row_at(),
        final(w).col_at() == old(w).col_at(),
        final(w).screen() == old(w).screen(),
{
    let a = ((bg & 0x0F) << 4) | (fg & 0x0F);
    assert(a == ((bg % 16) * 16 + fg % 16) as u8) by (bit_vector)
        requires
            a == ((bg & 0x0F) << 4) | (fg & 0x0F),
    ;
    w.attr = a;
}

/// Sets the attribute used for the following characters from two colors.
pub fn vga_set_colors(w: &mut TextWriter, foreground: Color, background: Color)
    ensures
        final(w).attribute() == attr_of(color_code(foreground), color_code(background)),
        final(w).row_at() == old(w).row_at(),
        final(w).col_at() == old(w).col_at(),
        final(w).screen() == old(w).screen(),
{
    vga_set_color(w, foreground.code(), background.code());
}

} // verus!
