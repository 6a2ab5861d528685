use j2calc::lcd::{
    BinaryColor, BinaryFramebuffer, Error, Glyph, LcdProtocol, Pixel, Rectangle, TextFramebuffer,
    CLEAR_BIT, FRAME_BYTES, HEIGHT, LINE_BYTES, TEXT_CELLS, TEXT_HEIGHT, TEXT_WIDTH, VCOM_BIT, WIDTH,
    WRITE_BIT,
};

fn frame_bytes(fb: &BinaryFramebuffer) -> Vec<u8> {
    let mut all = Vec::new();
    for line in 0..HEIGHT {
        all.extend(fb.line(line));
    }
    all
}

#[test]
fn geometry_constants() {
    assert_eq!(LINE_BYTES, WIDTH / 8);
    assert_eq!(FRAME_BYTES, LINE_BYTES * HEIGHT);
    assert_eq!(TEXT_WIDTH, WIDTH / 10);
    assert_eq!(TEXT_HEIGHT, HEIGHT / 20);
    assert_eq!(TEXT_CELLS, TEXT_WIDTH * TEXT_HEIGHT);
}

#[test]
fn new_framebuffer_is_all_off() {
    let fb = BinaryFramebuffer::new();
    let bytes = frame_bytes(&fb);
    assert_eq!(bytes.len(), FRAME_BYTES);
    assert!(bytes.iter().all(|b| *b == 0xFF));
    assert_eq!(fb.text_cursor(), (0, 120));
}

#[test]
fn set_pixel_clears_the_bit_of_an_on_pixel() {
    let mut fb = BinaryFramebuffer::new();
    fb.set_pixel(0, 0, BinaryColor::On);
    assert_eq!(fb.line(0)[0], 0x7F);
    fb.set_pixel(7, 0, BinaryColor::On);
    assert_eq!(fb.line(0)[0], 0x7E);
    fb.set_pixel(0, 0, BinaryColor::Off);
    assert_eq!(fb.line(0)[0], 0xFE);
    fb.set_pixel(399, 239, BinaryColor::On);
    assert_eq!(fb.line(239)[49], 0xFE);
    fb.set_pixel(10, 3, BinaryColor::On);
    assert_eq!(fb.line(3)[1], 0xDF);
}

#[test]
fn set_pixel_off_the_panel_is_ignored() {
    let mut fb = BinaryFramebuffer::new();
    fb.set_pixel(-1, 0, BinaryColor::On);
    fb.set_pixel(0, -1, BinaryColor::On);
    fb.set_pixel(400, 0, BinaryColor::On);
    fb.set_pixel(0, 240, BinaryColor::On);
    assert!(frame_bytes(&fb).iter().all(|b| *b == 0xFF));
}

#[test]
fn set_pixel_keeps_other_pixels() {
    let mut fb = BinaryFramebuffer::new();
    fb.clear(BinaryColor::On);
    fb.set_pixel(9, 1, BinaryColor::Off);
    let bytes = frame_bytes(&fb);
    for (i, b) in bytes.iter().enumerate() {
        if i == LINE_BYTES + 1 {
            assert_eq!(*b, 0x40);
        } else {
            assert_eq!(*b, 0);
        }
    }
}

#[test]
fn clear_fills_and_homes_the_cursor() {
    let mut fb = BinaryFramebuffer::new();
    fb.set_pixel(5, 5, BinaryColor::On);
    fb.clear(BinaryColor::On);
    assert!(frame_bytes(&fb).iter().all(|b| *b == 0));
    fb.clear(BinaryColor::Off);
    assert!(frame_bytes(&fb).iter().all(|b| *b == 0xFF));
    assert_eq!(fb.text_cursor(), (0, 120));
}

#[test]
fn draw_iter_draws_in_order() {
    let mut fb = BinaryFramebuffer::new();
    let pixels = [
        Pixel { x: 1, y: 0, color: BinaryColor::On },
        Pixel { x: 2, y: 0, color: BinaryColor::On },
        Pixel { x: 1, y: 0, color: BinaryColor::Off },
        Pixel { x: 500, y: 0, color: BinaryColor::On },
    ];
    fb.draw_iter(&pixels);
    assert_eq!(fb.line(0)[0], 0xDF);
}

#[test]
fn bounding_box_covers_the_panel() {
    let fb = BinaryFramebuffer::new();
    assert_eq!(fb.bounding_box(), Rectangle { x: 0, y: 0, width: 400, height: 240 });
}

fn text_of(t: &TextFramebuffer) -> Vec<char> {
    t.glyphs().iter().map(|g| g.ch).collect()
}

#[test]
fn new_and_cleared_text_is_blank() {
    let mut t = TextFramebuffer::new();
    assert!(text_of(&t).iter().all(|c| *c == ' '));
    t.write_str("hello");
    t.clear();
    assert!(text_of(&t).iter().all(|c| *c == ' '));
    t.write_str("x");
    assert_eq!(text_of(&t)[0], 'x');
}

#[test]
fn text_is_written_at_the_cursor() {
    let mut t = TextFramebuffer::new();
    t.write_str("ab");
    t.write_str("c");
    let cells = text_of(&t);
    assert_eq!(&cells[0..4], &['a', 'b', 'c', ' ']);
}

#[test]
fn newline_moves_down_and_keeps_the_column() {
    let mut t = TextFramebuffer::new();
    t.write_str("ab\ncd");
    let cells = text_of(&t);
    assert_eq!(&cells[0..2], &['a', 'b']);
    assert_eq!(&cells[TEXT_WIDTH..TEXT_WIDTH + 4], &[' ', ' ', 'c', 'd']);
}

#[test]
fn text_wraps_at_the_end_of_a_row() {
    let mut t = TextFramebuffer::new();
    let line: String = std::iter::repeat('x').take(TEXT_WIDTH).collect();
    t.write_str(&line);
    t.write_str("y");
    let cells = text_of(&t);
    assert!(cells[0..TEXT_WIDTH].iter().all(|c| *c == 'x'));
    assert_eq!(cells[TEXT_WIDTH], 'y');
}

#[test]
fn text_below_the_grid_is_dropped() {
    let mut t = TextFramebuffer::new();
    for _ in 0..TEXT_HEIGHT {
        t.write_str("\n");
    }
    t.write_str("z");
    assert!(text_of(&t).iter().all(|c| *c == ' '));
}

#[test]
fn glyphs_are_laid_out_in_cells() {
    let mut t = TextFramebuffer::new();
    t.write_str("\n\nq");
    let glyphs = t.glyphs();
    assert_eq!(glyphs.len(), TEXT_CELLS);
    assert_eq!(glyphs[0], Glyph { ch: ' ', x: 0, y: 20 });
    assert_eq!(glyphs[2 * TEXT_WIDTH], Glyph { ch: 'q', x: 0, y: 60 });
    assert_eq!(glyphs[TEXT_WIDTH + 3], Glyph { ch: ' ', x: 30, y: 40 });
    assert_eq!(glyphs[TEXT_CELLS - 1], Glyph { ch: ' ', x: 390, y: 240 });
}

#[test]
fn vcom_refresh_restores_the_level() {
    let mut lcd = LcdProtocol::new();
    let first = lcd.update_vcom_command();
    assert_eq!(first, [VCOM_BIT, 0]);
    lcd.update_vcom_sent();
    let second = lcd.update_vcom_command();
    assert_eq!(second, [VCOM_BIT, 0]);
    lcd.update_vcom_sent();
    assert_eq!(lcd.toggle_vcom(), VCOM_BIT);
    assert_eq!(lcd.toggle_vcom(), 0);
}

#[test]
fn clear_and_draw_toggle_the_level() {
    let mut lcd = LcdProtocol::new();
    assert_eq!(lcd.clear_screen_command(), [VCOM_BIT | CLEAR_BIT, 0]);
    let fb = BinaryFramebuffer::new();
    let writes = lcd.draw_framebuffer_writes(&fb);
    assert_eq!(writes[0], vec![WRITE_BIT, 0]);
    assert_eq!(lcd.clear_screen_command(), [VCOM_BIT | CLEAR_BIT, 0]);
}

#[test]
fn framebuffer_writes_carry_lines_and_addresses() {
    let mut lcd = LcdProtocol::new();
    let mut fb = BinaryFramebuffer::new();
    fb.set_pixel(0, 1, BinaryColor::On);
    let writes = lcd.draw_framebuffer_writes(&fb);
    assert_eq!(writes.len(), 1 + 2 * HEIGHT);
    assert_eq!(writes[0], vec![VCOM_BIT | WRITE_BIT, 0]);
    assert_eq!(writes[1], vec![0xFF; LINE_BYTES]);
    assert_eq!(writes[2], vec![0, 0x80]);
    assert_eq!(writes[3][0], 0x7F);
    assert_eq!(writes[4], vec![0, 0x40]);
    assert_eq!(writes[6], vec![0, 0xC0]);
    assert_eq!(writes[2 * HEIGHT], vec![0, 0x0F]);
}

#[test]
fn errors_are_distinct() {
    assert_ne!(Error::Spi, Error::Gpio);
}

#[test]
fn cursor_advances_one_cell_or_one_row() {
    let mut t = TextFramebuffer::new();
    t.write_str("ab");
    assert_eq!(t.cursor(), (2, 0));
    t.write_str("\n");
    assert_eq!(t.cursor(), (2, 1));
    let rest: String = std::iter::repeat('x').take(TEXT_WIDTH - 2).collect();
    t.write_str(&rest);
    assert_eq!(t.cursor(), (0, 2));
    let cells = text_of(&t);
    assert_eq!(cells[TEXT_WIDTH + 2], 'x');
    assert_eq!(cells[2 * TEXT_WIDTH - 1], 'x');
}

#[test]
fn fits_is_true_for_ordinary_text() {
    let mut t = TextFramebuffer::new();
    assert!(t.fits("hello\nworld"));
    t.write_str("hello\nworld");
    assert!(t.fits(""));
    assert_eq!(t.cursor(), (10, 1));
}
