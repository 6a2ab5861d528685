//! The memory LCD: its pixel framebuffer, a text grid drawn onto it, and the
//! bytes of the commands that the panel is sent.
use vstd::prelude::*;

verus! {

/// Width of the panel in pixels.
pub const WIDTH: usize = 400;

/// Height of the panel in pixels.
pub const HEIGHT: usize = 240;

/// Bytes that hold one line of pixels, eight pixels a byte (`WIDTH / 8`).
pub const LINE_BYTES: usize = 50;

/// Bytes that hold the whole frame (`LINE_BYTES * HEIGHT`).
pub const FRAME_BYTES: usize = 12000;

/// Command bit: write lines.
pub const WRITE_BIT: u8 = 0b10000000;

/// Command bit: the VCOM level.
pub const VCOM_BIT: u8 = 0b01000000;

/// Command bit: clear the whole panel.
pub const CLEAR_BIT: u8 = 0b00100000;

/// Columns of the text grid (`WIDTH / 10`: one glyph is ten pixels wide).
pub const TEXT_WIDTH: usize = 40;

/// Rows of the text grid (`HEIGHT / 20`: one glyph is twenty pixels high).
pub const TEXT_HEIGHT: usize = 12;

/// Cells of the text grid (`TEXT_WIDTH * TEXT_HEIGHT`).
pub const TEXT_CELLS: usize = 480;

/// The ways in which talking to the panel can fail.
#[derive(Debug, Clone, Copy, PartialEq, Eq, Structural)]
pub enum Error {
    Spi,
    Gpio,
}

/// The colour of one pixel.  `Off` is a light pixel, stored as a set bit.
#[derive(Debug, Clone, Copy, PartialEq, Eq, Structural)]
pub enum BinaryColor {
    Off,
    On,
}

/// One pixel to draw.
#[derive(Debug, Clone, Copy, PartialEq, Eq, Structural)]
pub struct Pixel {
    pub x: i32,
    pub y: i32,
    pub color: BinaryColor,
}

/// An axis-aligned rectangle: its top left corner and its size.
#[derive(Debug, Clone, Copy, PartialEq, Eq, Structural)]
pub struct Rectangle {
    pub x: i32,
    pub y: i32,
    pub width: u32,
    pub height: u32,
}

/// Whether `(x, y)` lies on the panel.
pub open spec fn on_panel(x: int, y: int) -> bool {
    0 <= x < WIDTH && 0 <= y < HEIGHT
}

/// The byte of the frame that holds pixel `(x, y)`.
pub open spec fn pixel_byte(x: int, y: int) -> int {
    y * LINE_BYTES + x / 8
}

/// The bit of its byte that holds a pixel in column `x`: the leftmost pixel is
/// the most significant bit.
pub open spec fn pixel_bit(x: int) -> u8 {
    1u8 << ((7 - x % 8) as u8)
}

/// The colour of pixel `(x, y)` in the frame `frame`.
pub open spec fn color_at(frame: Seq<u8>, x: int, y: int) -> BinaryColor {
    if frame[pixel_byte(x, y)] & pixel_bit(x) != 0 {
        BinaryColor::Off
    } else {
        BinaryColor::On
    }
}

/// The frame `frame` with pixel `(x, y)` set to `color`; a pixel off the panel
/// leaves the frame as it is.
pub open spec fn with_pixel(frame: Seq<u8>, x: int, y: int, color: BinaryColor) -> Seq<u8> {
    if on_panel(x, y) {
        let i = pixel_byte(x, y);
        let bit = pixel_bit(x);
        let value: u8 = if color == BinaryColor::Off {
            bit
        } else {
            0
        };
        frame.update(i, (frame[i] & !bit) | value)
    } else {
        frame
    }
}

/// The frame `frame` with `pixels` drawn onto it in order.
pub open spec fn with_pixels(frame: Seq<u8>, pixels: Seq<Pixel>) -> Seq<u8>
    decreases pixels.len(),
{
    if pixels.len() == 0 {
        frame
    } else {
        let p = pixels.last();
        with_pixel(with_pixels(frame, pixels.drop_last()), p.x as int, p.y as int, p.color)
    }
}

/// Drawing no pixel leaves the frame alone, and drawing one more pixel after a
/// list of pixels is drawing that pixel on the frame the list left: every pixel
/// of the list is drawn, in order.
pub proof fn lemma_with_pixels_step(frame: Seq<u8>, pixels: Seq<Pixel>, p: Pixel)
    ensures
        with_pixels(frame, Seq::empty()) == frame,
        with_pixels(frame, pixels.push(p)) == with_pixel(
            with_pixels(frame, pixels),
            p.x as int,
            p.y as int,
            p.color,
        ),
{
    assert(pixels.push(p).drop_last() =~= pixels);
}

proof fn lemma_with_pixels_len(frame: Seq<u8>, pixels: Seq<Pixel>)
    requires
        frame.len() == FRAME_BYTES,
    ensures
        with_pixels(frame, pixels).len() == FRAME_BYTES,
    decreases pixels.len(),
{
    if pixels.len() > 0 {
        lemma_with_pixels_len(frame, pixels.drop_last());
        let p = pixels.last();
        if on_panel(p.x as int, p.y as int) {
            lemma_pixel_byte_in_frame(p.x as int, p.y as int);
        }
    }
}

/// After a list of pixels is drawn, a pixel on the panel has the colour of the
/// last pixel of the list drawn at its place, and keeps its colour when none
/// is.
pub proof fn lemma_with_pixels_color(frame: Seq<u8>, pixels: Seq<Pixel>, x: int, y: int)
    requires
        frame.len() == FRAME_BYTES,
        on_panel(x, y),
    ensures
        (forall|i: int| 0 <= i < pixels.len() ==> !(#[trigger] pixels[i].x == x && pixels[i].y
            == y)) ==> color_at(with_pixels(frame, pixels), x, y) == color_at(frame, x, y),
        forall|i: int|
            0 <= i < pixels.len() && pixels[i].x == x && pixels[i].y == y && (forall|j: int|
                i < j < pixels.len() ==> !(#[trigger] pixels[j].x == x && pixels[j].y == y))
                ==> color_at(with_pixels(frame, pixels), x, y) == #[trigger] pixels[i].color,
    decreases pixels.len(),
{
    if pixels.len() > 0 {
        let rest = pixels.drop_last();
        let p = pixels.last();
        let n = pixels.len() - 1;
        lemma_with_pixels_color(frame, rest, x, y);
        lemma_with_pixels_len(frame, rest);
        let before = with_pixels(frame, rest);
        if on_panel(p.x as int, p.y as int) {
            lemma_set_pixel_reads_back(before, p.x as int, p.y as int, p.color, x, y);
        }
        assert forall|i: int|
            0 <= i < pixels.len() && pixels[i].x == x && pixels[i].y == y && (forall|j: int|
                i < j < pixels.len() ==> !(#[trigger] pixels[j].x == x && pixels[j].y == y))
                implies color_at(with_pixels(frame, pixels), x, y) == #[trigger] pixels[i].color by {
            if i < n {
                assert(!(pixels[n].x == x && pixels[n].y == y));
                assert(rest[i] == pixels[i]);
                assert forall|j: int| i < j < rest.len() implies !(#[trigger] rest[j].x == x
                    && rest[j].y == y) by {
                    assert(rest[j] == pixels[j]);
                }
            }
        }
        if forall|i: int| 0 <= i < pixels.len() ==> !(#[trigger] pixels[i].x == x && pixels[i].y
            == y) {
            assert(!(pixels[n].x == x && pixels[n].y == y));
            assert forall|i: int| 0 <= i < rest.len() implies !(#[trigger] rest[i].x == x
                && rest[i].y == y) by {
                assert(rest[i] == pixels[i]);
            }
        }
    }
}

/// The byte that fills a frame cleared to `color`.
pub open spec fn fill_byte(color: BinaryColor) -> u8 {
    if color == BinaryColor::Off {
        0xFF
    } else {
        0
    }
}

/// A frame of one colour.
pub open spec fn filled_frame(color: BinaryColor) -> Seq<u8> {
    Seq::new(FRAME_BYTES as nat, |i: int| fill_byte(color))
}

/// Where text drawing starts after a clear.
pub open spec fn home_cursor() -> (i32, i32) {
    (0, 120)
}

proof fn lemma_bit_update(v: u8, a: u8, b: u8, w: u8)
    by (bit_vector)
    requires
        a < 8,
        b < 8,
        w == 0 || w == 1u8 << a,
    ensures
        a != b ==> ((v & !(1u8 << a)) | w) & (1u8 << b) == v & (1u8 << b),
        w == 0 ==> ((v & !(1u8 << a)) | w) & (1u8 << a) == 0,
        w != 0 ==> ((v & !(1u8 << a)) | w) & (1u8 << a) != 0,
        (1u8 << a) != 0,
        0xFFu8 & (1u8 << a) != 0,
        0u8 & (1u8 << a) == 0,
{
}

proof fn lemma_pixel_byte_in_frame(x: int, y: int)
    requires
        on_panel(x, y),
    ensures
        0 <= pixel_byte(x, y) < FRAME_BYTES,
        0 <= x % 8 < 8,
{
    assert(0 <= y * 50 + x / 8 < 12000) by (nonlinear_arith)
        requires
            0 <= x < 400,
            0 <= y < 240,
    ;
}

proof fn lemma_pixel_byte_distinct(x: int, y: int, x2: int, y2: int)
    requires
        on_panel(x, y),
        on_panel(x2, y2),
        (x, y) != (x2, y2),
        pixel_byte(x, y) == pixel_byte(x2, y2),
    ensures
        x % 8 != x2 % 8,
{
    assert(y == y2 && x / 8 == x2 / 8) by (nonlinear_arith)
        requires
            0 <= x < 400,
            0 <= y < 240,
            0 <= x2 < 400,
            0 <= y2 < 240,
            y * 50 + x / 8 == y2 * 50 + x2 / 8,
    ;
}

/// A pixel that is set on the panel reads back as the colour it was set to, and
/// every other pixel keeps its colour.
pub proof fn lemma_set_pixel_reads_back(
    frame: Seq<u8>,
    x: int,
    y: int,
    color: BinaryColor,
    x2: int,
    y2: int,
)
    requires
        frame.len() == FRAME_BYTES,
        on_panel(x, y),
        on_panel(x2, y2),
    ensures
        with_pixel(frame, x, y, color).len() == FRAME_BYTES,
        color_at(with_pixel(frame, x, y, color), x, y) == color,
        (x2, y2) != (x, y) ==> color_at(with_pixel(frame, x, y, color), x2, y2) == color_at(
            frame,
            x2,
            y2,
        ),
{
    lemma_pixel_byte_in_frame(x, y);
    lemma_pixel_byte_in_frame(x2, y2);
    let i = pixel_byte(x, y);
    let a: u8 = (7 - x % 8) as u8;
    let b: u8 = (7 - x2 % 8) as u8;
    let w: u8 = if color == BinaryColor::Off {
        pixel_bit(x)
    } else {
        0
    };
    lemma_bit_update(frame[i], a, b, w);
    if (x2, y2) != (x, y) && pixel_byte(x2, y2) == i {
        lemma_pixel_byte_distinct(x, y, x2, y2);
    }
}

/// A pixel off the panel leaves the frame as it is.
pub proof fn lemma_off_panel_pixel_ignored(frame: Seq<u8>, x: int, y: int, color: BinaryColor)
    requires
        !on_panel(x, y),
    ensures
        with_pixel(frame, x, y, color) == frame,
{
}

/// Every pixel of a frame cleared to `color` has that colour.
pub proof fn lemma_cleared_frame_color(color: BinaryColor, x: int, y: int)
    requires
        on_panel(x, y),
    ensures
        color_at(filled_frame(color), x, y) == color,
{
    lemma_pixel_byte_in_frame(x, y);
    let a: u8 = (7 - x % 8) as u8;
    lemma_bit_update(0, a, a, 0);
}

/// A pixel framebuffer for the whole panel, laid out line by line as the panel
/// receives it.
pub struct BinaryFramebuffer {
    data: [u8; FRAME_BYTES],
    text_cursor: (i32, i32),
}

impl View for BinaryFramebuffer {
    type V = Seq<u8>;

    closed spec fn view(&self) -> Seq<u8> {
        self.data@
    }
}

impl BinaryFramebuffer {
    /// The text cursor that the framebuffer carries.
    pub closed spec fn cursor(&self) -> (i32, i32) {
        self.text_cursor
    }

    /// The frame has the size of the panel.
    pub open spec fn wf(&self) -> bool {
        self@.len() == FRAME_BYTES
    }

    /// A frame with every pixel off, and the text cursor at its home.
    pub fn new() -> (r: Self)
        ensures
            r.wf(),
            r@ == filled_frame(BinaryColor::Off),
            r.cursor() == home_cursor(),
    {
        let data: [u8; FRAME_BYTES] = [0xFFu8; FRAME_BYTES];
        let r = BinaryFramebuffer { data, text_cursor: (0, 120) };
        assert(r@ =~= filled_frame(BinaryColor::Off));
        r
    }

    /// The text cursor.
    pub fn text_cursor(&self) -> (r: (i32, i32))
        ensures
            r == self.cursor(),
    {
        self.text_cursor
    }

    /// Sets pixel `(x, y)` to `color`; a pixel off the panel is ignored.
    pub fn set_pixel(&mut self, x: i32, y: i32, color: BinaryColor)
        requires
            old(self).wf(),
        ensures
            final(self).wf(),
            final(self)@ == with_pixel(old(self)@, x as int, y as int, color),
            final(self).cursor() == old(self).cursor(),
    {
        if x >= WIDTH as i32 || y >= HEIGHT as i32 || x < 0 || y < 0 {
            return;
        }
        let shift: u8 = (7 - (x % 8)) as u8;
        let bit: u8 = 1u8 << shift;
        let value: u8 = if color == BinaryColor::Off {
            bit
        } else {
            0u8
        };
        let mask: u8 = !bit;
        assert(0 <= (y as int) * LINE_BYTES + (x as int) / 8 < FRAME_BYTES) by (nonlinear_arith)
            requires
                0 <= x < WIDTH,
                0 <= y < HEIGHT,
        ;
        let i: usize = (y as usize) * LINE_BYTES + (x as usize) / 8;
        let cell: u8 = self.data[i];
        self.data[i] = (cell & mask) | value;
    }

    /// Draws `pixels` in order; pixels off the panel are ignored.
    pub fn draw_iter(&mut self, pixels: &[Pixel])
        requires
            old(self).wf(),
        ensures
            final(self).wf(),
            final(self)@ == with_pixels(old(self)@, pixels@),
            final(self).cursor() == old(self).cursor(),
    {
        let n = pixels.len();
        for i in 0..n
            invariant
                n == pixels@.len(),
                self.wf(),
                self@ == with_pixels(old(self)@, pixels@.take(i as int)),
                self.cursor() == old(self).cursor(),
        {
            let p = pixels[i];
            self.set_pixel(p.x, p.y, p.color);
            assert(pixels@.take(i + 1).drop_last() =~= pixels@.take(i as int));
        }
        assert(pixels@.take(n as int) =~= pixels@);
    }

    /// Fills the frame with `color` and puts the text cursor at its home.
    pub fn clear(&mut self, color: BinaryColor)
        requires
            old(self).wf(),
        ensures
            final(self).wf(),
            final(self)@ == filled_frame(color),
            final(self).cursor() == home_cursor(),
    {
        let value: u8 = if color == BinaryColor::Off {
            0xFF
        } else {
            0
        };
        for i in 0..FRAME_BYTES
            invariant
                self.wf(),
                forall|j: int| 0 <= j < i ==> self@[j] == value,
        {
            self.data[i] = value;
        }
        self.text_cursor = (0, 120);
        assert(self@ =~= filled_frame(color));
    }

    /// The rectangle that the frame covers.
    pub fn bounding_box(&self) -> (r: Rectangle)
        ensures
            r == (Rectangle { x: 0, y: 0, width: WIDTH as u32, height: HEIGHT as u32 }),
    {
        Rectangle { x: 0, y: 0, width: WIDTH as u32, height: HEIGHT as u32 }
    }

    /// The bytes of line `line` of the frame.
    pub fn line(&self, line: usize) -> (r: Vec<u8>)
        requires
            self.wf(),
            line < HEIGHT,
        ensures
            r@ == self@.subrange(line * LINE_BYTES, line * LINE_BYTES + LINE_BYTES),
    {
        assert(line * LINE_BYTES + LINE_BYTES <= FRAME_BYTES) by (nonlinear_arith)
            requires
                line < HEIGHT,
        ;
        let start: usize = line * LINE_BYTES;
        let mut r: Vec<u8> = Vec::new();
        for j in 0..LINE_BYTES
            invariant
                self.wf(),
                start + LINE_BYTES <= FRAME_BYTES,
                r@ == self@.subrange(start as int, start + j),
        {
            r.push(self.data[start + j]);
            assert(r@ =~= self@.subrange(start as int, start + j + 1));
        }
        r
    }
}

/// The contents of a text grid: its cells, row by row, and the cursor column and
/// row.
pub type TextScreen = (Seq<char>, int, int);

/// The text grid after `c` is written.  A newline moves the cursor one row down
/// and leaves its column alone.  Any other character is stored in the cell under
/// the cursor when that cell is on the grid, and the cursor moves one column
/// right, or to the start of the next row from the last column.
pub open spec fn put_char(screen: TextScreen, c: char) -> TextScreen {
    let (cells, col, row) = screen;
    if c == '\n' {
        (cells, col, row + 1)
    } else {
        let cells2 = if col < TEXT_WIDTH && row < TEXT_HEIGHT {
            cells.update(row * TEXT_WIDTH + col, c)
        } else {
            cells
        };
        if col + 1 >= TEXT_WIDTH {
            (cells2, 0, row + 1)
        } else {
            (cells2, col + 1, row)
        }
    }
}

/// The text grid after the characters of `s` are written in order.
pub open spec fn put_text(screen: TextScreen, s: Seq<char>) -> TextScreen
    decreases s.len(),
{
    if s.len() == 0 {
        screen
    } else {
        put_char(put_text(screen, s.drop_last()), s.last())
    }
}

/// An empty text grid with the cursor at its top left cell.
pub open spec fn blank_screen() -> TextScreen {
    (Seq::new(TEXT_CELLS as nat, |i: int| ' '), 0, 0)
}

/// Writing `a` and then `b` leaves the text grid as writing `a` followed by `b`
/// in one go does.
pub proof fn lemma_put_text_append(screen: TextScreen, a: Seq<char>, b: Seq<char>)
    ensures
        put_text(put_text(screen, a), b) == put_text(screen, a + b),
    decreases b.len(),
{
    if b.len() == 0 {
        assert(a + b =~= a);
    } else {
        lemma_put_text_append(screen, a, b.drop_last());
        assert((a + b).drop_last() =~= a + b.drop_last());
        assert((a + b).last() == b.last());
    }
}

/// Each character moves the cursor by at most one row, and the cursor column
/// stays on the grid.
pub proof fn lemma_put_text_bounds(screen: TextScreen, s: Seq<char>)
    requires
        0 <= screen.1 < TEXT_WIDTH,
        0 <= screen.2,
        screen.0.len() == TEXT_CELLS,
    ensures
        0 <= put_text(screen, s).1 < TEXT_WIDTH,
        screen.2 <= put_text(screen, s).2 <= screen.2 + s.len(),
        put_text(screen, s).0.len() == TEXT_CELLS,
    decreases s.len(),
{
    if s.len() > 0 {
        lemma_put_text_bounds(screen, s.drop_last());
        let (cells, col, row) = put_text(screen, s.drop_last());
        if col < TEXT_WIDTH && row < TEXT_HEIGHT {
            assert(0 <= row * TEXT_WIDTH + col < TEXT_CELLS) by (nonlinear_arith)
                requires
                    0 <= col < 40,
                    0 <= row < 12,
            ;
        }
    }
}

/// The cursor of a text grid as one cell index: `row * TEXT_WIDTH + col`.
pub open spec fn text_position(screen: TextScreen) -> int {
    screen.2 * TEXT_WIDTH + screen.1
}

/// How far the characters of `s` move the cursor, as a cell index: one cell
/// for each character, a whole row for each newline.
pub open spec fn text_advance(s: Seq<char>) -> nat
    decreases s.len(),
{
    if s.len() == 0 {
        0
    } else {
        text_advance(s.drop_last()) + if s.last() == '\n' {
            TEXT_WIDTH as nat
        } else {
            1
        }
    }
}

/// Writing one character, in closed form: the cursor index moves by one cell
/// (a whole row for a newline), the column and row are that index split by the
/// row width, and the character lands in the cell under the cursor (when that
/// cell is on the grid) while every other cell keeps its character.
pub proof fn lemma_put_char_closed_form(screen: TextScreen, c: char)
    requires
        0 <= screen.1 < TEXT_WIDTH,
        0 <= screen.2,
        screen.0.len() == TEXT_CELLS,
    ensures
        text_position(put_char(screen, c)) == text_position(screen) + if c == '\n' {
            TEXT_WIDTH as int
        } else {
            1
        },
        put_char(screen, c).1 == text_position(put_char(screen, c)) % TEXT_WIDTH as int,
        put_char(screen, c).2 == text_position(put_char(screen, c)) / TEXT_WIDTH as int,
        put_char(screen, c).0.len() == TEXT_CELLS,
        forall|k: int|
            0 <= k < TEXT_CELLS ==> #[trigger] put_char(screen, c).0[k] == if c != '\n' && k
                == text_position(screen) {
                c
            } else {
                screen.0[k]
            },
{
    let (cells, col, row) = screen;
    let (cells2, col2, row2) = put_char(screen, c);
    assert(row2 * 40 + col2 == text_position(put_char(screen, c)));
    assert(col2 == (row2 * 40 + col2) % 40 && row2 == (row2 * 40 + col2) / 40) by (nonlinear_arith)
        requires
            0 <= col2 < 40,
            0 <= row2,
    ;
    if c != '\n' {
        assert(row < 12 <==> row * 40 + col < 480) by (nonlinear_arith)
            requires
                0 <= col < 40,
                0 <= row,
        ;
    }
}

/// Writing a text, in closed form: the cursor index moves by `text_advance`,
/// and the column and row are that index split by the row width.
pub proof fn lemma_put_text_closed_form(screen: TextScreen, s: Seq<char>)
    requires
        0 <= screen.1 < TEXT_WIDTH,
        0 <= screen.2,
        screen.0.len() == TEXT_CELLS,
    ensures
        text_position(put_text(screen, s)) == text_position(screen) + text_advance(s),
        put_text(screen, s).1 == text_position(put_text(screen, s)) % TEXT_WIDTH as int,
        put_text(screen, s).2 == text_position(put_text(screen, s)) / TEXT_WIDTH as int,
    decreases s.len(),
{
    if s.len() == 0 {
        let (cells, col, row) = screen;
        assert(col == (row * 40 + col) % 40 && row == (row * 40 + col) / 40) by (nonlinear_arith)
            requires
                0 <= col < 40,
                0 <= row,
        ;
    } else {
        lemma_put_text_closed_form(screen, s.drop_last());
        lemma_put_text_bounds(screen, s.drop_last());
        lemma_put_char_closed_form(put_text(screen, s.drop_last()), s.last());
    }
}

/// One glyph of the text grid, with the point at which it is drawn.
#[derive(Debug, Clone, Copy, PartialEq, Eq, Structural)]
pub struct Glyph {
    pub ch: char,
    pub x: i32,
    pub y: i32,
}

/// A grid of characters over the panel, written like a terminal.
pub struct TextFramebuffer {
    data: [char; TEXT_CELLS],
    cursor: (usize, usize),
}

impl View for TextFramebuffer {
    type V = TextScreen;

    closed spec fn view(&self) -> TextScreen {
        (self.data@, self.cursor.0 as int, self.cursor.1 as int)
    }
}

impl TextFramebuffer {
    /// The grid has its size, and the cursor column is on it.
    pub open spec fn wf(&self) -> bool {
        &&& self@.0.len() == TEXT_CELLS
        &&& 0 <= self@.1 < TEXT_WIDTH
        &&& 0 <= self@.2 <= usize::MAX
    }

    /// A blank grid with the cursor at its top left cell.
    pub fn new() -> (r: Self)
        ensures
            r.wf(),
            r@ == blank_screen(),
    {
        let data: [char; TEXT_CELLS] = [' '; TEXT_CELLS];
        let r = TextFramebuffer { data, cursor: (0, 0) };
        assert(r@.0 =~= blank_screen().0);
        r
    }

    /// Blanks the grid and puts the cursor at its top left cell.
    pub fn clear(&mut self)
        requires
            old(self).wf(),
        ensures
            final(self).wf(),
            final(self)@ == blank_screen(),
    {
        for i in 0..TEXT_CELLS
            invariant
                self.data@.len() == TEXT_CELLS,
                forall|j: int| 0 <= j < i ==> self.data@[j] == ' ',
        {
            self.data[i] = ' ';
        }
        self.cursor = (0, 0);
        assert(self@.0 =~= blank_screen().0);
    }

    /// The cursor: its column and its row.
    pub fn cursor(&self) -> (r: (usize, usize))
        ensures
            r.0 == self@.1,
            r.1 == self@.2,
    {
        self.cursor
    }

    /// Whether writing `s` keeps the cursor row within `usize`, as
    /// `write_str` requires.
    pub fn fits(&self, s: &str) -> (r: bool)
        requires
            self.wf(),
        ensures
            r == (put_text(self@, s@).2 <= usize::MAX),
    {
        broadcast use vstd::string::axiom_spec_iter;
        let mut col: usize = self.cursor.0;
        let mut row: u128 = self.cursor.1 as u128;
        for c in it: s.chars()
            invariant
                it.seq() == s@,
                self.wf(),
                row <= usize::MAX,
                col == put_text(self@, it.seq().take(it.index())).1,
                row == put_text(self@, it.seq().take(it.index())).2,
        {
            let ghost i = it.index();
            proof {
                lemma_put_text_bounds(self@, it.seq().take(i));
                assert(it.seq().take(i + 1).drop_last() =~= it.seq().take(i));
            }
            if c == '\n' {
                row = row + 1;
            } else if col + 1 >= TEXT_WIDTH {
                col = 0;
                row = row + 1;
            } else {
                col = col + 1;
            }
            if row > usize::MAX as u128 {
                proof {
                    let next = it.seq().take(i + 1);
                    lemma_put_text_bounds(self@, next);
                    lemma_put_text_append(self@, next, s@.skip(i + 1));
                    assert(next + s@.skip(i + 1) =~= s@);
                    lemma_put_text_bounds(put_text(self@, next), s@.skip(i + 1));
                }
                return false;
            }
        }
        assert(s@.take(s@.len() as int) =~= s@);
        true
    }

    /// Writes the characters of `s`, as `put_text` says.  The cursor row must
    /// stay within `usize` (the row counter would overflow).
    pub fn write_str(&mut self, s: &str)
        requires
            old(self).wf(),
            put_text(old(self)@, s@).2 <= usize::MAX,
        ensures
            final(self).wf(),
            final(self)@ == put_text(old(self)@, s@),
    {
        broadcast use vstd::string::axiom_spec_iter;
        for c in it: s.chars()
            invariant
                it.seq() == s@,
                old(self).wf(),
                put_text(old(self)@, s@).2 <= usize::MAX,
                self.wf(),
                self@ == put_text(old(self)@, it.seq().take(it.index())),
        {
            proof {
                let i = it.index();
                let next = it.seq().take(i + 1);
                lemma_put_text_bounds(old(self)@, it.seq().take(i));
                lemma_put_text_bounds(old(self)@, next);
                lemma_put_text_append(old(self)@, next, s@.skip(i + 1));
                assert(next + s@.skip(i + 1) =~= s@);
                lemma_put_text_bounds(put_text(old(self)@, next), s@.skip(i + 1));
                assert(next.drop_last() =~= it.seq().take(i));
            }
            if c == '\n' {
                self.cursor.1 = self.cursor.1 + 1;
            } else {
                if self.cursor.0 < TEXT_WIDTH && self.cursor.1 < TEXT_HEIGHT {
                    assert(self.cursor.1 * TEXT_WIDTH + self.cursor.0 < TEXT_CELLS) by (nonlinear_arith)
                        requires
                            self.cursor.0 < 40,
                            self.cursor.1 < 12,
                    ;
                    let i = self.cursor.1 * TEXT_WIDTH + self.cursor.0;
                    self.data[i] = c;
                }
                if self.cursor.0 + 1 >= TEXT_WIDTH {
                    self.cursor.0 = 0;
                    self.cursor.1 = self.cursor.1 + 1;
                } else {
                    self.cursor.0 = self.cursor.0 + 1;
                }
            }
        }
        assert(s@.take(s@.len() as int) =~= s@);
    }

    /// The character of cell `k`.
    fn cell(&self, k: usize) -> (c: char)
        requires
            k < self.data@.len(),
        ensures
            c == self.data@[k as int],
    {
        self.data[k]
    }

    /// Every cell with the point at which its glyph is drawn: cells row by row,
    /// ten pixels apart across a row, and rows twenty pixels apart starting at
    /// twenty pixels from the top (the glyph baseline).
    pub fn glyphs(&self) -> (r: Vec<Glyph>)
        requires
            self.wf(),
        ensures
            r@.len() == TEXT_CELLS,
            forall|i: int|
                0 <= i < TEXT_CELLS ==> #[trigger] r@[i] == (Glyph {
                    ch: self@.0[i],
                    x: (10 * (i % TEXT_WIDTH as int)) as i32,
                    y: (20 + 20 * (i / TEXT_WIDTH as int)) as i32,
                }),
    {
        let mut out: Vec<Glyph> = Vec::new();
        let mut x: i32 = 0;
        let mut y: i32 = 20;
        let mut col: usize = 0;
        let mut line: usize = 0;
        let mut k: usize = 0;
        while k < TEXT_CELLS
            invariant
                self.wf(),
                k <= TEXT_CELLS,
                col < 40,
                k == 40 * line + col,
                x == 10 * col,
                y == 20 + 20 * line,
                out@.len() == k,
                forall|i: int|
                    0 <= i < k ==> #[trigger] out@[i] == (Glyph {
                        ch: self@.0[i],
                        x: (10 * (i % TEXT_WIDTH as int)) as i32,
                        y: (20 + 20 * (i / TEXT_WIDTH as int)) as i32,
                    }),
            decreases TEXT_CELLS - k,
        {
            assert(k % 40 == col && k / 40 == line) by (nonlinear_arith)
                requires
                    k == 40 * line + col,
                    col < 40,
            ;
            let ch = self.cell(k);
            out.push(Glyph { ch, x, y });
            if col + 1 == TEXT_WIDTH {
                col = 0;
                line = line + 1;
                x = 0;
                y = y + 20;
            } else {
                col = col + 1;
                x = x + 10;
            }
            k = k + 1;
        }
        out
    }
}

} // verus!

verus! {

/// `x` with the order of its bits reversed: bit `i` becomes bit `7 - i`.
pub open spec fn reversed_bits(x: u8) -> u8 {
    ((x & 0x01) << 7u8) | ((x & 0x02) << 5u8) | ((x & 0x04) << 3u8) | ((x & 0x08) << 1u8) | ((x
        & 0x10) >> 1u8) | ((x & 0x20) >> 3u8) | ((x & 0x40) >> 5u8) | ((x & 0x80) >> 7u8)
}

/// `u8::reverse_bits` from std: its documentation says that it reverses the
/// order of the bits, the least significant bit becoming the most significant.
#[verifier::external_body]
fn reverse_bits(x: u8) -> (r: u8)
    ensures
        r == reversed_bits(x),
{
    x.reverse_bits()
}

/// The first command byte of a frame: `VCOM_BIT` when the VCOM level is high.
pub open spec fn vcom_byte(vcom: bool) -> u8 {
    if vcom {
        VCOM_BIT
    } else {
        0
    }
}

/// The address byte of panel line `line` (counted from zero): the line number
/// counted from one, with its bits reversed.
pub open spec fn line_address(line: int) -> u8 {
    reversed_bits((line + 1) as u8)
}

/// The command side of the panel driver: the VCOM level, which every frame sent
/// to the panel carries and which it toggles, and the bytes of each command.
pub struct LcdProtocol {
    vcom: bool,
}

impl LcdProtocol {
    /// The current VCOM level.
    pub closed spec fn vcom(&self) -> bool {
        self.vcom
    }

    /// A driver whose VCOM level is low.
    pub fn new() -> (r: Self)
        ensures
            !r.vcom(),
    {
        LcdProtocol { vcom: false }
    }

    /// Flips the VCOM level and returns the command bits for the new level.
    pub fn toggle_vcom(&mut self) -> (r: u8)
        ensures
            final(self).vcom() == !old(self).vcom(),
            r == vcom_byte(final(self).vcom()),
    {
        self.vcom = !self.vcom;
        if self.vcom {
            VCOM_BIT
        } else {
            0u8
        }
    }

    /// The frame that refreshes the VCOM level: the toggled level and a
    /// trailer byte.  Once it has been sent, `update_vcom_sent` completes the
    /// refresh.
    pub fn update_vcom_command(&mut self) -> (r: [u8; 2])
        ensures
            final(self).vcom() == !old(self).vcom(),
            r@ == seq![vcom_byte(!old(self).vcom()), 0u8],
            r@ == seq![if old(self).vcom() { 0x00u8 } else { 0x40u8 }, 0x00u8],
    {
        let cmd = [self.toggle_vcom(), 0u8];
        cmd
    }

    /// Completes a VCOM refresh whose frame was sent: the level flips back.
    pub fn update_vcom_sent(&mut self)
        ensures
            final(self).vcom() == !old(self).vcom(),
    {
        self.vcom = !self.vcom;
    }

    /// The frame that clears the panel: the toggled VCOM level with `CLEAR_BIT`,
    /// and a trailer byte.
    pub fn clear_screen_command(&mut self) -> (r: [u8; 2])
        ensures
            final(self).vcom() == !old(self).vcom(),
            r@ == seq![vcom_byte(!old(self).vcom()) | CLEAR_BIT, 0u8],
            r@ == seq![if old(self).vcom() { 0x20u8 } else { 0x60u8 }, 0x00u8],
    {
        assert(0x40u8 | 0x20u8 == 0x60u8 && 0u8 | 0x20u8 == 0x20u8) by (bit_vector);
        let cmd = [self.toggle_vcom() | CLEAR_BIT, 0u8];
        cmd
    }

    /// The writes that send `framebuffer` to the panel, in order: a header with
    /// the toggled VCOM level and `WRITE_BIT`, then for each line its bytes
    /// followed by a filler byte and the address of the next line.
    pub fn draw_framebuffer_writes(&mut self, framebuffer: &BinaryFramebuffer) -> (r: Vec<Vec<u8>>)
        requires
            framebuffer.wf(),
        ensures
            final(self).vcom() == !old(self).vcom(),
            r@.len() == 1 + 2 * HEIGHT,
            r@[0]@ == seq![vcom_byte(!old(self).vcom()) | WRITE_BIT, 0u8],
            r@[0]@ == seq![if old(self).vcom() { 0x80u8 } else { 0xC0u8 }, 0x00u8],
            forall|line: int|
                0 <= line < HEIGHT ==> #[trigger] r@[1 + 2 * line]@ == framebuffer@.subrange(
                    line * LINE_BYTES,
                    line * LINE_BYTES + LINE_BYTES,
                ),
            forall|line: int|
                0 <= line < HEIGHT ==> #[trigger] r@[2 + 2 * line]@ == seq![0u8, line_address(line)],
            forall|line: int, i: u8|
                0 <= line < HEIGHT && i < 8 ==> #[trigger] (r@[2 + 2 * line]@[1] >> i) & 1 == (((
                line + 1) as u8) >> (7 - i) as u8) & 1,
    {
        assert(0x40u8 | 0x80u8 == 0xC0u8 && 0u8 | 0x80u8 == 0x80u8) by (bit_vector);
        let mut writes: Vec<Vec<u8>> = Vec::new();
        let header: u8 = self.toggle_vcom() | WRITE_BIT;
        let mut first: Vec<u8> = Vec::new();
        first.push(header);
        first.push(0u8);
        writes.push(first);
        for line in 0..HEIGHT
            invariant
                framebuffer.wf(),
                writes@.len() == 1 + 2 * line,
                writes@[0]@ == seq![header, 0u8],
                forall|l: int|
                    0 <= l < line ==> #[trigger] writes@[1 + 2 * l]@ == framebuffer@.subrange(
                        l * LINE_BYTES,
                        l * LINE_BYTES + LINE_BYTES,
                    ),
                forall|l: int|
                    0 <= l < line ==> #[trigger] writes@[2 + 2 * l]@ == seq![0u8, line_address(l)],
        {
            writes.push(framebuffer.line(line));
            let mut address: Vec<u8> = Vec::new();
            address.push(0u8);
            address.push(reverse_bits((line + 1) as u8));
            writes.push(address);
        }
        assert forall|line: int, i: u8| 0 <= line < HEIGHT && i < 8 implies #[trigger] (writes@[2
            + 2 * line]@[1] >> i) & 1 == (((line + 1) as u8) >> (7 - i) as u8) & 1 by {
            lemma_line_address_bits(line, i);
        }
        writes
    }
}

} // verus!

verus! {

proof fn lemma_reversed_bit(x: u8, i: u8)
    by (bit_vector)
    requires
        i < 8,
    ensures
        (reversed_bits(x) >> i) & 1 == (x >> (7 - i) as u8) & 1,
{
}

/// The address sent after line `line` of the panel (counted from zero) holds
/// the bits of the line number counted from one in reverse order: its bit `i`
/// is bit `7 - i` of `line + 1`.
pub proof fn lemma_line_address_bits(line: int, i: u8)
    requires
        0 <= line < HEIGHT,
        i < 8,
    ensures
        (line_address(line) >> i) & 1 == (((line + 1) as u8) >> (7 - i) as u8) & 1,
{
    lemma_reversed_bit((line + 1) as u8, i);
}

} // verus!

verus! {

/// Writing one more character after any text, on a grid whose cursor column is
/// on the grid: a newline moves the cursor one row down and leaves every cell
/// alone; any other character lands in the cell under the cursor whenever that
/// cell is on the grid (the last row included), moves the cursor one cell on,
/// and leaves every other cell alone.
pub proof fn lemma_put_text_one_more(screen: TextScreen, s: Seq<char>, c: char)
    requires
        0 <= screen.1 < TEXT_WIDTH,
        0 <= screen.2,
        screen.0.len() == TEXT_CELLS,
    ensures
        ({
            let before = put_text(screen, s);
            let after = put_text(screen, s.push(c));
            &&& after.0.len() == TEXT_CELLS
            &&& 0 <= after.1 < TEXT_WIDTH
            &&& text_position(after) == text_position(before) + if c == '\n' {
                TEXT_WIDTH as int
            } else {
                1
            }
            &&& (c != '\n' && text_position(before) < TEXT_CELLS) ==> after.0[text_position(
                before,
            )] == c
            &&& forall|k: int|
                0 <= k < TEXT_CELLS && (c == '\n' || k != text_position(before))
                    ==> #[trigger] after.0[k] == before.0[k]
        }),
{
    assert(s.push(c).drop_last() =~= s);
    lemma_put_text_bounds(screen, s);
    lemma_put_text_bounds(screen, s.push(c));
    lemma_put_char_closed_form(put_text(screen, s), c);
}

} // verus!

verus! {

proof fn lemma_bit_test(v: u8, s: u8)
    by (bit_vector)
    requires
        s < 8,
    ensures
        (v & (1u8 << s) != 0) == ((v >> s) & 1 == 1),
{
}

/// The frame is laid out line by line, fifty bytes a line, eight pixels a byte
/// with the leftmost pixel in the most significant bit; a set bit is a light
/// (`Off`) pixel.
pub proof fn lemma_pixel_layout(frame: Seq<u8>, x: int, y: int)
    requires
        on_panel(x, y),
    ensures
        color_at(frame, x, y) == if (frame[y * 50 + x / 8] >> ((7 - x % 8) as u8)) & 1 == 1 {
            BinaryColor::Off
        } else {
            BinaryColor::On
        },
{
    lemma_pixel_byte_in_frame(x, y);
    lemma_bit_test(frame[y * 50 + x / 8], (7 - x % 8) as u8);
}

} // verus!
