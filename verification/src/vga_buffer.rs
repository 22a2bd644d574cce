//! The text console: a fixed 25 by 80 screen of coloured characters
//! written bottom-line-first, scrolling up one row on every newline.
//!
//! The running kernel backs this with the memory-mapped video buffer;
//! here the screen is held as plain data, so the writer's logic —
//! column wrap, scrolling, character filtering, colour codes — is
//! verified.

use vstd::prelude::*;

verus! {

/// Height of the screen in rows.
pub const BUFFER_HEIGHT: usize = 25;

/// Width of the screen in columns.
pub const BUFFER_WIDTH: usize = 80;

/// The valid text colours.
#[derive(Debug, Clone, Copy, PartialEq, Eq, Structural)]
pub enum Colour {
    Black,
    Blue,
    Green,
    Cyan,
    Red,
    Magenta,
    Brown,
    LightGray,
    DarkGray,
    LightBlue,
    LightGreen,
    LightCyan,
    LightRed,
    Pink,
    Yellow,
    White,
}

impl Colour {
    /// The hardware number of this colour.
    pub open spec fn spec_code(self) -> u8 {
        match self {
            Colour::Black => 0,
            Colour::Blue => 1,
            Colour::Green => 2,
            Colour::Cyan => 3,
            Colour::Red => 4,
            Colour::Magenta => 5,
            Colour::Brown => 6,
            Colour::LightGray => 7,
            Colour::DarkGray => 8,
            Colour::LightBlue => 9,
            Colour::LightGreen => 10,
            Colour::LightCyan => 11,
            Colour::LightRed => 12,
            Colour::Pink => 13,
            Colour::Yellow => 14,
            Colour::White => 15,
        }
    }

    /// The hardware number of this colour.
    pub fn code(self) -> (c: u8)
        ensures
            c == self.spec_code(),
            c < 16,
    {
        match self {
            Colour::Black => 0,
            Colour::Blue => 1,
            Colour::Green => 2,
            Colour::Cyan => 3,
            Colour::Red => 4,
            Colour::Magenta => 5,
            Colour::Brown => 6,
            Colour::LightGray => 7,
            Colour::DarkGray => 8,
            Colour::LightBlue => 9,
            Colour::LightGreen => 10,
            Colour::LightCyan => 11,
            Colour::LightRed => 12,
            Colour::Pink => 13,
            Colour::Yellow => 14,
            Colour::White => 15,
        }
    }
}

/// A display code: background colour in the high half of the byte,
/// foreground in the low half, with the top bit requesting blinking.
#[derive(Debug, Clone, Copy, PartialEq, Eq, Structural)]
pub struct DisplayCode(pub u8);

impl DisplayCode {
    /// Create a new non-blinking display code.
    pub fn new(foreground: Colour, background: Colour) -> (r: DisplayCode)
        ensures
            r.0 == background.spec_code() * 16 + foreground.spec_code(),
    {
        let f = foreground.code();
        let b = background.code();
        let r = DisplayCode((b << 4u8) | f);
        proof {
            assert((b << 4u8) | f == b * 16 + f) by (bit_vector)
                requires
                    b < 16 && f < 16,
            ;
        }
        r
    }

    /// Create a new blinking display code: the top bit asks for blink,
    /// so only the background's low three bits are kept.
    pub fn new_blink(foreground: Colour, background: Colour) -> (r: DisplayCode)
        ensures
            r.0 == 128 + (background.spec_code() % 8) * 16 + foreground.spec_code(),
    {
        let f = foreground.code();
        let b = background.code();
        let r = DisplayCode((1u8 << 7u8) | (b << 4u8) | f);
        proof {
            assert((1u8 << 7u8) | (b << 4u8) | f == 128 + (b % 8) * 16 + f) by (bit_vector)
                requires
                    b < 16 && f < 16,
            ;
        }
        r
    }
}

/// One screen cell: a character byte and its display code.
#[derive(Debug, Clone, Copy, PartialEq, Eq, Structural)]
pub struct DisplayChar {
    pub ascii_char: u8,
    pub display_code: DisplayCode,
}

/// Ghost image of the screen: its rows of cells, the column the next
/// character lands in, and the current display code.
pub ghost struct ScreenView {
    pub rows: Seq<Seq<DisplayChar>>,
    pub col: int,
    pub code: DisplayCode,
}

/// A blank cell in the given code.
pub open spec fn blank_char(code: DisplayCode) -> DisplayChar {
    DisplayChar { ascii_char: 32, display_code: code }
}

/// A blank row in the given code.
pub open spec fn blank_row(code: DisplayCode) -> Seq<DisplayChar> {
    Seq::new(BUFFER_WIDTH as nat, |i: int| blank_char(code))
}

/// The screen after a newline: every row moves up one, the bottom row
/// is blanked, and writing restarts at the left edge.
pub open spec fn spec_new_line(v: ScreenView) -> ScreenView {
    ScreenView {
        rows: Seq::new(BUFFER_HEIGHT as nat, |r: int|
            if r < BUFFER_HEIGHT - 1 { v.rows[r + 1] } else { blank_row(v.code) }),
        col: 0,
        code: v.code,
    }
}

/// The screen after one byte: a newline scrolls; any other byte lands
/// in the bottom row at the current column (after scrolling first when
/// the row is full) and advances the column.
pub open spec fn spec_write_byte(v: ScreenView, byte: u8) -> ScreenView {
    if byte == 10 {
        spec_new_line(v)
    } else {
        let v1 = if v.col >= BUFFER_WIDTH { spec_new_line(v) } else { v };
        ScreenView {
            rows: v1.rows.update(BUFFER_HEIGHT - 1, v1.rows[BUFFER_HEIGHT - 1].update(
                v1.col,
                DisplayChar { ascii_char: byte, display_code: v1.code },
            )),
            col: v1.col + 1,
            code: v1.code,
        }
    }
}

/// Whether a byte is printed as itself: the printable range and the
/// newline. Anything else is shown as the placeholder character.
pub open spec fn printable(byte: u8) -> bool {
    (0x20 <= byte <= 0x7e) || byte == 10
}

/// The byte a string byte is printed as.
pub open spec fn filtered(byte: u8) -> u8 {
    if printable(byte) { byte } else { 0xfe }
}

/// The screen after a whole string, each byte filtered then written.
pub open spec fn spec_write_bytes(v: ScreenView, s: Seq<u8>) -> ScreenView
    decreases s.len(),
{
    if s.len() == 0 {
        v
    } else {
        spec_write_bytes(spec_write_byte(v, filtered(s[0])), s.drop_first())
    }
}

/// Writing one more byte extends the string's effect.
pub proof fn lemma_write_bytes_push(v: ScreenView, s: Seq<u8>, byte: u8)
    ensures
        spec_write_bytes(v, s.push(byte))
            == spec_write_byte(spec_write_bytes(v, s), filtered(byte)),
    decreases s.len(),
{
    reveal_with_fuel(spec_write_bytes, 3);
    if s.len() == 0 {
        assert(s.push(byte)[0] == byte);
        assert(s.push(byte).drop_first() =~= Seq::<u8>::empty());
    } else {
        assert(s.push(byte)[0] == s[0]);
        assert(s.push(byte).drop_first() =~= s.drop_first().push(byte));
        lemma_write_bytes_push(spec_write_byte(v, filtered(s[0])), s.drop_first(), byte);
    }
}

/// The bytes a divider line prints: a newline, a full row of the given
/// character, and a final newline.
pub open spec fn divider_bytes(chr: u8) -> Seq<u8> {
    Seq::new((BUFFER_WIDTH + 2) as nat, |i: int|
        if i == 0 || i == BUFFER_WIDTH + 1 { 10u8 } else { chr })
}

/// The console writer over the model screen.
pub struct Writer {
    col_pos: usize,
    display_code: DisplayCode,
    buffer: Vec<Vec<DisplayChar>>,
}

impl Writer {
    /// Ghost image of the screen.
    pub closed spec fn view(self) -> ScreenView {
        ScreenView {
            rows: Seq::new(self.buffer@.len(), |r: int| self.buffer@[r]@),
            col: self.col_pos as int,
            code: self.display_code,
        }
    }

    /// Well-formed writer: a full screen of full rows, with the column
    /// at most one past the last cell.
    pub open spec fn wf(self) -> bool {
        &&& self.view().rows.len() == BUFFER_HEIGHT
        &&& forall|r: int| 0 <= r < BUFFER_HEIGHT
            ==> (#[trigger] self.view().rows[r]).len() == BUFFER_WIDTH
        &&& 0 <= self.view().col <= BUFFER_WIDTH
    }

    /// A blank white-on-black screen.
    pub fn new() -> (w: Writer)
        ensures
            w.wf(),
            w.view().rows == Seq::new(BUFFER_HEIGHT as nat, |r: int|
                blank_row(DisplayCode(15))),
            w.view().col == 0,
            w.view().code == DisplayCode(15),
    {
        let code = DisplayCode::new(Colour::White, Colour::Black);
        let mut buffer: Vec<Vec<DisplayChar>> = Vec::new();
        let mut r: usize = 0;
        while r < BUFFER_HEIGHT
            invariant
                r <= BUFFER_HEIGHT,
                buffer@.len() == r,
                code == DisplayCode(15),
                forall|i: int| 0 <= i < r ==> (#[trigger] buffer@[i])@ == blank_row(DisplayCode(15)),
            decreases BUFFER_HEIGHT - r,
        {
            let mut row: Vec<DisplayChar> = Vec::new();
            let mut c: usize = 0;
            while c < BUFFER_WIDTH
                invariant
                    c <= BUFFER_WIDTH,
                    row@.len() == c,
                    code == DisplayCode(15),
                    forall|i: int| 0 <= i < c ==> (#[trigger] row@[i]) == blank_char(DisplayCode(15)),
                decreases BUFFER_WIDTH - c,
            {
                row.push(DisplayChar { ascii_char: 32, display_code: code });
                c = c + 1;
            }
            proof {
                assert(row@ =~= blank_row(DisplayCode(15)));
            }
            buffer.push(row);
            r = r + 1;
        }
        let w = Writer { col_pos: 0, display_code: code, buffer };
        proof {
            assert(w.view().rows =~= Seq::new(BUFFER_HEIGHT as nat, |r: int|
                blank_row(DisplayCode(15))));
        }
        w
    }

    /// Empty the indexed row of characters.
    fn clear_row(&mut self, row: usize)
        requires
            old(self).wf(),
            row < BUFFER_HEIGHT,
        ensures
            final(self).wf(),
            final(self).view().rows == old(self).view().rows.update(
                row as int, blank_row(old(self).view().code)),
            final(self).view().col == old(self).view().col,
            final(self).view().code == old(self).view().code,
    {
        let blank = DisplayChar { ascii_char: 32, display_code: self.display_code };
        let mut col: usize = 0;
        while col < BUFFER_WIDTH
            invariant
                old(self).wf(),
                col <= BUFFER_WIDTH,
                row < BUFFER_HEIGHT,
                blank == blank_char(old(self).view().code),
                self.view().code == old(self).view().code,
                self.view().col == old(self).view().col,
                self.view().rows.len() == BUFFER_HEIGHT,
                forall|r: int| 0 <= r < BUFFER_HEIGHT && r != row
                    ==> #[trigger] self.view().rows[r] == old(self).view().rows[r],
                self.view().rows[row as int].len() == BUFFER_WIDTH,
                forall|c: int| 0 <= c < col
                    ==> #[trigger] self.view().rows[row as int][c] == blank_char(old(self).view().code),
                forall|c: int| col <= c < BUFFER_WIDTH
                    ==> #[trigger] self.view().rows[row as int][c] == old(self).view().rows[row as int][c],
            decreases BUFFER_WIDTH - col,
        {
            let ghost pre = self.view();
            proof {
                assert(pre.rows[row as int].len() == BUFFER_WIDTH);
            }
            self.buffer[row][col] = blank;
            proof {
                assert(self.view().rows =~~= pre.rows.update(
                    row as int, pre.rows[row as int].update(col as int, blank)));
            }
            col = col + 1;
        }
        proof {
            assert(self.view().rows[row as int] =~= blank_row(old(self).view().code));
            assert(self.view().rows =~= old(self).view().rows.update(
                row as int, blank_row(old(self).view().code)));
        }
    }

    /// Scroll the screen up one row: every row moves up, the bottom row
    /// is blanked, and writing restarts at the left edge.
    fn new_line(&mut self)
        requires
            old(self).wf(),
        ensures
            final(self).wf(),
            final(self).view() == spec_new_line(old(self).view()),
    {
        let mut row: usize = 1;
        while row < BUFFER_HEIGHT
            invariant
                old(self).wf(),
                1 <= row <= BUFFER_HEIGHT,
                self.view().code == old(self).view().code,
                self.view().col == old(self).view().col,
                self.view().rows.len() == BUFFER_HEIGHT,
                forall|r: int| 0 <= r < BUFFER_HEIGHT
                    ==> (#[trigger] self.view().rows[r]).len() == BUFFER_WIDTH,
                forall|r: int| 0 <= r < row - 1
                    ==> #[trigger] self.view().rows[r] == old(self).view().rows[r + 1],
                forall|r: int| row - 1 <= r < BUFFER_HEIGHT
                    ==> #[trigger] self.view().rows[r] == old(self).view().rows[r],
            decreases BUFFER_HEIGHT - row,
        {
            let mut col: usize = 0;
            while col < BUFFER_WIDTH
                invariant
                    old(self).wf(),
                    1 <= row < BUFFER_HEIGHT,
                    col <= BUFFER_WIDTH,
                    self.view().code == old(self).view().code,
                    self.view().col == old(self).view().col,
                    self.view().rows.len() == BUFFER_HEIGHT,
                    forall|r: int| 0 <= r < BUFFER_HEIGHT
                        ==> (#[trigger] self.view().rows[r]).len() == BUFFER_WIDTH,
                    forall|r: int| 0 <= r < row - 1
                        ==> #[trigger] self.view().rows[r] == old(self).view().rows[r + 1],
                    forall|r: int| row <= r < BUFFER_HEIGHT
                        ==> #[trigger] self.view().rows[r] == old(self).view().rows[r],
                    forall|c: int| 0 <= c < col
                        ==> #[trigger] self.view().rows[row - 1][c] == old(self).view().rows[row as int][c],
                    forall|c: int| col <= c < BUFFER_WIDTH
                        ==> #[trigger] self.view().rows[row - 1][c] == old(self).view().rows[row - 1][c],
                decreases BUFFER_WIDTH - col,
            {
                let ghost pre = self.view();
                proof {
                    assert(pre.rows[row as int].len() == BUFFER_WIDTH);
                    assert(pre.rows[row - 1].len() == BUFFER_WIDTH);
                    assert(pre.rows[row as int] == old(self).view().rows[row as int]);
                }
                let chr = self.buffer[row][col];
                proof {
                    assert(chr == pre.rows[row as int][col as int]);
                }
                self.buffer[row - 1][col] = chr;
                proof {
                    assert(self.view().rows =~~= pre.rows.update(
                        row - 1, pre.rows[row - 1].update(col as int, chr)));
                }
                col = col + 1;
            }
            proof {
                assert(self.view().rows[row - 1] =~= old(self).view().rows[row as int]);
            }
            row = row + 1;
        }
        self.clear_row(BUFFER_HEIGHT - 1);
        self.col_pos = 0;
        proof {
            assert(self.view().rows =~= spec_new_line(old(self).view()).rows);
        }
    }

    /// Write a single byte into the bottom row of the screen: a newline
    /// scrolls, any other byte lands at the current column (scrolling
    /// first when the row is full) in the current code.
    pub fn write_byte(&mut self, byte: u8)
        requires
            old(self).wf(),
        ensures
            final(self).wf(),
            final(self).view() == spec_write_byte(old(self).view(), byte),
    {
        if byte == 10 {
            self.new_line();
        } else {
            if self.col_pos >= BUFFER_WIDTH {
                self.new_line();
            }
            let row = BUFFER_HEIGHT - 1;
            let col = self.col_pos;
            proof {
                assert(self.view().rows[BUFFER_HEIGHT - 1].len() == BUFFER_WIDTH);
            }
            self.buffer[row][col] = DisplayChar { ascii_char: byte, display_code: self.display_code };
            self.col_pos = col + 1;
            proof {
                let v1 = if old(self).view().col >= BUFFER_WIDTH {
                    spec_new_line(old(self).view())
                } else {
                    old(self).view()
                };
                assert(self.view().rows =~= spec_write_byte(old(self).view(), byte).rows);
            }
        }
    }

    /// Write a string on the bottom rows of the screen. Bytes outside
    /// the printable range (other than newline) are shown as the
    /// placeholder character.
    pub fn write_string(&mut self, string: &Vec<u8>)
        requires
            old(self).wf(),
        ensures
            final(self).wf(),
            final(self).view() == spec_write_bytes(old(self).view(), string@),
    {
        let n = string.len();
        let mut i: usize = 0;
        while i < n
            invariant
                old(self).wf(),
                self.wf(),
                i <= n,
                n == string@.len(),
                self.view() == spec_write_bytes(old(self).view(), string@.take(i as int)),
            decreases n - i,
        {
            let byte = string[i];
            if 0x20 <= byte && byte <= 0x7e || byte == 10 {
                self.write_byte(byte);
            } else {
                self.write_byte(0xfe);
            }
            proof {
                assert(string@.take(i + 1) =~= string@.take(i as int).push(byte));
                lemma_write_bytes_push(old(self).view(), string@.take(i as int), byte);
            }
            i = i + 1;
        }
        proof {
            assert(string@.take(n as int) =~= string@);
        }
    }
}

/// Set the colours used for everything written from now on.
pub fn set_colour(writer: &mut Writer, foreground: Colour, background: Colour)
    requires
        old(writer).wf(),
    ensures
        final(writer).wf(),
        final(writer).view().code.0 == background.spec_code() * 16 + foreground.spec_code(),
        final(writer).view().rows == old(writer).view().rows,
        final(writer).view().col == old(writer).view().col,
{
    let code = DisplayCode::new(foreground, background);
    writer.set_code(code)
}

/// Reset the colours to white on black.
pub fn reset_colour(writer: &mut Writer)
    requires
        old(writer).wf(),
    ensures
        final(writer).wf(),
        final(writer).view().code == DisplayCode(15),
        final(writer).view().rows == old(writer).view().rows,
        final(writer).view().col == old(writer).view().col,
{
    let code = DisplayCode::new(Colour::White, Colour::Black);
    writer.set_code(code)
}

impl Writer {
    /// The cell at the given position, for inspection and tests.
    pub fn char_at(&self, row: usize, col: usize) -> (c: DisplayChar)
        requires
            self.wf(),
            row < BUFFER_HEIGHT,
            col < BUFFER_WIDTH,
        ensures
            c == self.view().rows[row as int][col as int],
    {
        proof {
            assert(self.view().rows[row as int].len() == BUFFER_WIDTH);
        }
        self.buffer[row][col]
    }

    /// The column the next character lands in.
    pub fn column(&self) -> (c: usize)
        ensures
            c == self.view().col,
    {
        self.col_pos
    }

    /// Replace the current display code.
    fn set_code(&mut self, code: DisplayCode)
        requires
            old(self).wf(),
        ensures
            final(self).wf(),
            final(self).view().code == code,
            final(self).view().rows == old(self).view().rows,
            final(self).view().col == old(self).view().col,
    {
        self.display_code = code;
    }
}

/// Print a divider: a full row of the given character on a line of its
/// own.
pub fn divider(writer: &mut Writer, chr: u8)
    requires
        old(writer).wf(),
    ensures
        final(writer).wf(),
        final(writer).view() == spec_write_bytes(old(writer).view(), divider_bytes(chr)),
{
    let mut line: Vec<u8> = Vec::new();
    line.push(10);
    let mut i: usize = 0;
    while i < BUFFER_WIDTH
        invariant
            i <= BUFFER_WIDTH,
            line@.len() == i + 1,
            line@[0] == 10u8,
            forall|k: int| 1 <= k <= i ==> line@[k] == chr,
        decreases BUFFER_WIDTH - i,
    {
        line.push(chr);
        i = i + 1;
    }
    line.push(10);
    proof {
        assert(line@ =~= divider_bytes(chr));
    }
    writer.write_string(&line)
}

} // verus!
