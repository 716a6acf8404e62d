use flugzeug::boot_block::{FramebufferInfo, PixelFormat};
use flugzeug::framebuffer::{ColorMode, Font, Framebuffer, LineSplit, TextFramebuffer, EMPTY_CELL};

fn info(red: u32, blue: u32) -> FramebufferInfo {
    FramebufferInfo {
        width: 32,
        height: 16,
        pixel_format: PixelFormat { red, green: 0x00ff00, blue },
        pixels_per_scanline: 40,
        fb_base: 0x8000_0000,
        fb_size: 40 * 16 * 4,
    }
}

/// 4x4 font where 'a' is a dot in the top left corner and every other glyph is missing.
fn font(x_scale: usize) -> Font {
    let mut data: Vec<Option<Vec<u8>>> = (0..128).map(|_| None).collect();
    data[b'a' as usize] = Some(vec![0b0001, 0, 0, 0]);
    data[b'b' as usize] = Some(vec![0b1111, 0b1111, 0b1111, 0b1111]);
    Font::new(data, 4, 4, 0, 0, x_scale, 1)
}

#[test]
fn framebuffer_color_modes() {
    let rgb = Framebuffer::new(&info(0xff0000, 0x0000ff));
    assert_eq!(rgb.color_mode, ColorMode::RGB);
    assert_eq!(rgb.convert_color(0x123456), 0x123456);
    let bgr = Framebuffer::new(&info(0x0000ff, 0xff0000));
    assert_eq!(bgr.color_mode, ColorMode::BGR);
    assert_eq!(bgr.convert_color(0x123456), 0x563412);
    let custom = Framebuffer::new(&info(0xf00, 0xf));
    assert_eq!(custom.color_mode, ColorMode::Custom);
    assert_eq!(rgb.buffer.len(), 40 * 16);
    assert!(rgb.buffer.iter().all(|p| *p == 0));
}

#[test]
fn framebuffer_pixels() {
    let mut fb = Framebuffer::new(&info(0xff0000, 0x0000ff));
    fb.clear(0x111111);
    assert_eq!(fb.buffer[0], 0x111111);
    assert_eq!(fb.buffer[15 * 40 + 31], 0x111111);
    // The whole buffer is cleared, scanline padding included.
    assert_eq!(fb.buffer[32], 0x111111);
    fb.set_pixels_in_line(2, 3, &[1, 2, 3]);
    assert_eq!(&fb.buffer[3 * 40 + 2..3 * 40 + 5], &[1, 2, 3]);
    assert_eq!(fb.buffer[3 * 40 + 5], 0x111111);
}

#[test]
fn line_split() {
    let split = LineSplit::new(10, 3);
    assert_eq!(split.split(), vec![(0, 3), (3, 3), (6, 4)]);
    let split = LineSplit::new(4, 8);
    assert_eq!(split.split().iter().map(|p| p.1).sum::<usize>(), 4);
}

#[test]
fn text_console_writes_and_scrolls() {
    let fb = Framebuffer::new(&info(0xff0000, 0x0000ff));
    let mut console = TextFramebuffer::new(fb, font(1));
    assert_eq!((console.width, console.height), (8, 4));
    assert!(console.text.iter().all(|c| *c == EMPTY_CELL));
    let fg = console.default_foreground;
    assert_eq!(fg, 0xffffff);

    console.write_string("ab\nb");
    let a = TextFramebuffer::encode_colored_character(b'a', fg);
    let b = TextFramebuffer::encode_colored_character(b'b', fg);
    assert_eq!(a, 0x61ff_ffff);
    assert_eq!(console.text[0], a);
    assert_eq!(console.text[1], b);
    assert_eq!(console.text[8], b);
    assert_eq!(console.text[2], EMPTY_CELL);
    assert_eq!((console.x, console.y), (1, 1));

    // The glyph of 'a' has only its top left pixel set.
    assert_eq!(console.framebuffer.buffer[0], 0xffffff);
    assert_eq!(console.framebuffer.buffer[1], 0);
    assert_eq!(console.framebuffer.buffer[40], 0);
    // The glyph of 'b' fills its cell.
    assert_eq!(console.framebuffer.buffer[4 + 3 * 40 + 3], 0xffffff);

    // Writing past the last line scrolls the text up.
    console.write_string("\n\n\nz");
    assert_eq!(console.y, 3);
    assert_eq!(console.text[0], b);
    assert_eq!(console.text[3 * 8], TextFramebuffer::encode_colored_character(b'z', fg));

    console.set_color(0x00ff00);
    assert_eq!(console.foreground, 0x00ff00);
    console.reset_color();
    assert_eq!(console.foreground, fg);
    console.clear_line(0);
    assert!(console.text[..8].iter().all(|c| *c == EMPTY_CELL));
}

#[test]
fn empty_characters_drop_their_color() {
    assert_eq!(TextFramebuffer::encode_colored_character(b' ', 0x123456), EMPTY_CELL);
    assert_eq!(TextFramebuffer::encode_colored_character(0, 0x123456), 0);
    assert_eq!(TextFramebuffer::encode_colored_character(b'x', 0x123456), 0x7812_3456);
}

#[test]
fn text_console_redraws_pixels() {
    let fb = Framebuffer::new(&info(0xff0000, 0x0000ff));
    let mut console = TextFramebuffer::new(fb, font(1));
    let fg = console.default_foreground;

    // The glyph of 'b' fills the first cell.
    console.write_char('b');
    assert!((0..4).all(|r| (0..4).all(|c| console.framebuffer.buffer[r * 40 + c] == fg)));
    assert_eq!(console.framebuffer.buffer[4], 0);

    // A carriage return draws nothing.
    let before = console.framebuffer.buffer.clone();
    console.write_char('\r');
    assert_eq!(console.framebuffer.buffer, before);

    // 'a' on the second line: only the top left pixel of its cell.
    console.write_string("\na");
    assert_eq!(console.framebuffer.buffer[4 * 40], fg);
    assert_eq!(console.framebuffer.buffer[4 * 40 + 1], 0);

    // Scrolling copies the pixels of the changed line up and clears the last line.
    console.write_string("\n\n\n");
    assert_eq!(console.text[0], TextFramebuffer::encode_colored_character(b'a', fg));
    assert_eq!(console.framebuffer.buffer[0], fg);
    assert_eq!(console.framebuffer.buffer[1], 0);
    assert_eq!(console.framebuffer.buffer[40 + 1], 0);
    assert!((4..8).all(|r| (0..32).all(|c| console.framebuffer.buffer[r * 40 + c] == 0)));
    assert!((12..16).all(|r| (0..32).all(|c| console.framebuffer.buffer[r * 40 + c] == 0)));

    // Clearing a line that holds text paints its cells with the background.
    console.clear_line(0);
    assert_eq!(console.framebuffer.buffer[0], 0);
}
