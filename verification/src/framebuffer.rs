//! Text console drawn on a linear framebuffer with a bitmap font.
//!
//! The pixel buffer is what the display shows; mirroring it to the device memory is left to
//! the caller.
use vstd::prelude::*;
use vstd::string::*;
use crate::boot_block::{FramebufferInfo, PixelFormat};

verus! {

pub const DEFAULT_FOREGROUND_COLOR: u32 = 0xffffff;

/// Text value of an empty cell: a space, whose color is ignored.
pub const EMPTY_CELL: u32 = 0x2000_0000;

/// Order of the color channels in a pixel.
#[derive(Copy, Clone, PartialEq, Eq, Structural, Debug)]
pub enum ColorMode {
    RGB,
    BGR,
    Custom,
}

/// Color mode of a framebuffer with channel masks `f`.
pub open spec fn spec_color_mode(f: PixelFormat) -> ColorMode {
    if f.red == 0xff0000 && f.green == 0x00ff00 && f.blue == 0x0000ff {
        ColorMode::RGB
    } else if f.red == 0x0000ff && f.green == 0x00ff00 && f.blue == 0xff0000 {
        ColorMode::BGR
    } else {
        ColorMode::Custom
    }
}

/// Pixel value of RGB `color` in mode `mode` (red, green and blue swapped for BGR).
pub open spec fn spec_convert_color(mode: ColorMode, color: u32) -> u32 {
    match mode {
        ColorMode::BGR => ((color >> 16u32) & 0xff) | (((color >> 8u32) & 0xff) << 8u32) | ((
        color & 0xff) << 16u32),
        _ => color,
    }
}

/// The bits of an RGB color, and of the cell that holds a blank.
proof fn lemma_color_bits(color: u32)
    by (bit_vector)
    ensures
        0u32 & 0xff00_0000u32 == 0,
        0xffffffu32 & 0xff00_0000u32 == 0,
        ((0u32 >> 16u32) & 0xff) | (((0u32 >> 8u32) & 0xff) << 8u32) | ((0u32 & 0xff) << 16u32) == 0,
        (((color >> 16u32) & 0xff) | (((color >> 8u32) & 0xff) << 8u32) | ((color & 0xff) << 16u32))
            & 0xff00_0000 == 0,
        0u32 | (32u32 << 24u32) == 0x2000_0000u32,
{
}

/// `buf` with `s` written from index `start` on.
pub open spec fn write_range(buf: Seq<u32>, start: int, s: Seq<u32>) -> Seq<u32> {
    Seq::new(
        buf.len(),
        |i: int|
            if start <= i < start + s.len() {
                s[i - start]
            } else {
                buf[i]
            },
    )
}

/// `buf` with `n` values written from index `start` on, all equal to `v`.
pub open spec fn fill_range(buf: Seq<u32>, start: int, n: int, v: u32) -> Seq<u32> {
    Seq::new(
        buf.len(),
        |i: int|
            if start <= i < start + n {
                v
            } else {
                buf[i]
            },
    )
}

/// Linear framebuffer: `height` lines of `width` visible pixels, `pixels_per_scanline` apart.
pub struct Framebuffer {
    pub width: usize,
    pub height: usize,
    pub pixels_per_scanline: usize,
    pub format: PixelFormat,
    pub color_mode: ColorMode,
    pub buffer: Vec<u32>,
}

proof fn lemma_row_index(y: int, x: int, h: int, p: int)
    requires
        0 <= y < h,
        0 <= x <= p,
    ensures
        y * p + x <= h * p,
        0 <= y * p,
{
    assert(y * p + x <= h * p) by (nonlinear_arith)
        requires
            0 <= y < h,
            0 <= x <= p,
    ;
    assert(0 <= y * p) by (nonlinear_arith)
        requires
            0 <= y,
            0 <= p,
    ;
}

impl Framebuffer {
    /// Every visible pixel lies in the buffer.
    pub open spec fn wf(&self) -> bool {
        &&& self.width > 0
        &&& self.height > 0
        &&& self.width <= self.pixels_per_scanline
        &&& self.pixels_per_scanline >= 8
        &&& self.height * self.pixels_per_scanline <= self.buffer@.len()
    }

    /// The framebuffer described by `info`, all black.
    pub fn new(info: &FramebufferInfo) -> (r: Self)
        requires
            info.fb_size % 4 == 0,
            info.fb_base != 0,
            info.width > 0 && info.height > 0,
            info.pixels_per_scanline >= 8,
            info.width <= info.pixels_per_scanline,
            info.height * info.pixels_per_scanline * 4 <= info.fb_size,
            info.fb_size / 4 <= usize::MAX,
        ensures
            r.wf(),
            r.width == info.width,
            r.height == info.height,
            r.pixels_per_scanline == info.pixels_per_scanline,
            r.format == info.pixel_format,
            r.color_mode == spec_color_mode(info.pixel_format),
            r.buffer@ == Seq::new((info.fb_size / 4) as nat, |i: int| 0u32),
    {
        // This is different than UEFI values.
        let f = info.pixel_format;
        let color_mode = if f.red == 0xff0000 && f.green == 0x00ff00 && f.blue == 0x0000ff {
            ColorMode::RGB
        } else if f.red == 0x0000ff && f.green == 0x00ff00 && f.blue == 0xff0000 {
            ColorMode::BGR
        } else {
            ColorMode::Custom
        };
        let buffer_size = (info.fb_size / 4) as usize;
        let buffer = vec![0u32; buffer_size];
        assert(buffer@ =~= Seq::new((info.fb_size / 4) as nat, |i: int| 0u32));
        Self {
            width: info.width as usize,
            height: info.height as usize,
            pixels_per_scanline: info.pixels_per_scanline as usize,
            format: info.pixel_format,
            color_mode,
            buffer,
        }
    }

    /// Set every pixel to `color`.
    pub fn clear(&mut self, color: u32)
        ensures
            final(self).buffer@ == Seq::new(old(self).buffer@.len(), |i: int| color),
            final(self).width == old(self).width,
            final(self).height == old(self).height,
            final(self).pixels_per_scanline == old(self).pixels_per_scanline,
            final(self).format == old(self).format,
            final(self).color_mode == old(self).color_mode,
    {
        let mut i: usize = 0;
        while i < self.buffer.len()
            invariant
                i <= self.buffer@.len(),
                self.buffer@.len() == old(self).buffer@.len(),
                self.width == old(self).width,
                self.height == old(self).height,
                self.pixels_per_scanline == old(self).pixels_per_scanline,
                self.format == old(self).format,
                self.color_mode == old(self).color_mode,
                forall|j: int| 0 <= j < i ==> self.buffer@[j] == color,
            decreases self.buffer@.len() - i,
        {
            self.buffer.set(i, color);
            i += 1;
        }
        assert(self.buffer@ =~= Seq::new(old(self).buffer@.len(), |i: int| color));
    }

    /// Copy `colors` to line `y` starting at column `x`.
    pub fn set_pixels_in_line(&mut self, x: usize, y: usize, colors: &[u32])
        requires
            old(self).wf(),
            x + colors@.len() <= old(self).width,
            y < old(self).height,
        ensures
            final(self).buffer@ == write_range(
                old(self).buffer@,
                y * old(self).pixels_per_scanline + x,
                colors@,
            ),
            final(self).width == old(self).width,
            final(self).height == old(self).height,
            final(self).pixels_per_scanline == old(self).pixels_per_scanline,
            final(self).format == old(self).format,
            final(self).color_mode == old(self).color_mode,
    {
        proof {
            lemma_row_index(
                y as int,
                x as int + colors@.len(),
                self.height as int,
                self.pixels_per_scanline as int,
            );
        }
        let len = self.buffer.len();
        let index = y * self.pixels_per_scanline + x;
        let ghost start = index as int;
        let mut i: usize = 0;
        while i < colors.len()
            invariant
                i <= colors@.len(),
                index == start,
                len == self.buffer@.len(),
                start + colors@.len() <= self.buffer@.len(),
                self.buffer@.len() == old(self).buffer@.len(),
                self.width == old(self).width,
                self.height == old(self).height,
                self.pixels_per_scanline == old(self).pixels_per_scanline,
                self.format == old(self).format,
                self.color_mode == old(self).color_mode,
                forall|j: int|
                    0 <= j < self.buffer@.len() ==> #[trigger] self.buffer@[j] == (if start <= j
                        < start + i {
                        colors@[j - start]
                    } else {
                        old(self).buffer@[j]
                    }),
            decreases colors@.len() - i,
        {
            self.buffer.set(index + i, colors[i]);
            i += 1;
        }
        assert(self.buffer@ =~= write_range(old(self).buffer@, start, colors@));
    }

    /// Pixel value of RGB `color` in this framebuffer's color mode.
    pub fn convert_color(&self, color: u32) -> (r: u32)
        requires
            color & 0xff00_0000 == 0,
            self.color_mode != ColorMode::Custom,
        ensures
            r == spec_convert_color(self.color_mode, color),
    {
        match self.color_mode {
            ColorMode::RGB => color,
            ColorMode::BGR => {
                let r = (color >> 16) & 0xff;
                let g = (color >> 8) & 0xff;
                let b = color & 0xff;
                r | (g << 8) | (b << 16)
            },
            ColorMode::Custom => color,
        }
    }
}

/// Division of a line of `width` cells into `part_count` parts; the last part takes the
/// remainder.
pub struct LineSplit {
    pub part_count: usize,
    pub part_size: usize,
    pub last_add: usize,
}

impl LineSplit {
    /// Part `i` as (start, size).
    pub open spec fn part(&self, i: int) -> (int, int) {
        (
            i * self.part_size,
            self.part_size + if i + 1 == self.part_count {
                self.last_add as int
            } else {
                0
            },
        )
    }

    /// Split `width` cells into `part_count` parts of equal size, the last one taking the
    /// remainder.
    pub fn new(width: usize, part_count: usize) -> (r: Self)
        requires
            part_count > 0,
        ensures
            r.part_count == part_count,
            r.part_size == width / part_count,
            r.last_add == width - part_count * (width / part_count),
    {
        let part_size = width / part_count;
        proof {
            assert(part_count * part_size <= width) by (nonlinear_arith)
                requires
                    part_count > 0,
                    part_size == width / part_count,
            ;
        }
        let last_add = width - (part_count * part_size);
        Self { part_count, part_size, last_add }
    }

    /// All parts in order, as (start, size) pairs.
    pub fn split(&self) -> (r: Vec<(usize, usize)>)
        requires
            self.part_count * self.part_size + self.last_add <= usize::MAX,
        ensures
            r@.len() == self.part_count,
            forall|i: int|
                0 <= i < self.part_count ==> (#[trigger] r@[i]).0 == self.part(i).0 && r@[i].1
                    == self.part(i).1,
    {
        let mut parts: Vec<(usize, usize)> = Vec::new();
        let mut part_index: usize = 0;
        while part_index < self.part_count
            invariant
                part_index <= self.part_count,
                self.part_count * self.part_size + self.last_add <= usize::MAX,
                parts@.len() == part_index,
                forall|i: int|
                    0 <= i < part_index ==> (#[trigger] parts@[i]).0 == self.part(i).0
                        && parts@[i].1 == self.part(i).1,
            decreases self.part_count - part_index,
        {
            proof {
                assert(part_index * self.part_size + self.part_size <= self.part_count
                    * self.part_size) by (nonlinear_arith)
                    requires
                        part_index < self.part_count,
                ;
            }
            let start_x = part_index * self.part_size;
            let size = if part_index + 1 == self.part_count {
                self.last_add
            } else {
                0
            } + self.part_size;
            parts.push((start_x, size));
            part_index += 1;
        }
        parts
    }
}

/// Text value of character `ch` drawn in `color` (spaces and NULs carry no color).
pub open spec fn spec_encode_char(ch: u8, color: u32) -> u32 {
    (if ch == 0 || ch == 32 {
        0
    } else {
        color
    }) | ((ch as u32) << 24u32)
}


/// Bytes per glyph row of a font `width` pixels wide.
pub open spec fn row_bytes(width: int) -> int {
    (width + 7) / 8
}

/// Bitmap font scaled and padded into character cells of `visual_width` by `visual_height`
/// pixels. Glyph rows are packed bitmaps, least significant bit first, each starting on a new
/// byte.
pub struct Font {
    pub data: Vec<Option<Vec<u8>>>,
    pub width: usize,
    pub height: usize,
    pub visual_width: usize,
    pub visual_height: usize,
    pub x_padding: usize,
    pub y_padding: usize,
    pub x_scale: usize,
    pub y_scale: usize,
}

/// `buf` with `line` written to `n` consecutive lines starting at `row`, column `col`, lines
/// being `pps` apart.
pub open spec fn drawn_lines(buf: Seq<u32>, row: int, col: int, pps: int, line: Seq<u32>, n: nat) -> Seq<
    u32,
>
    decreases n,
{
    if n == 0 {
        buf
    } else {
        write_range(
            drawn_lines(buf, row, col, pps, line, (n - 1) as nat),
            (row + n - 1) * pps + col,
            line,
        )
    }
}

impl Font {
    /// Sizes are positive, cells are the scaled glyph plus padding, and every glyph holds all
    /// of its rows.
    pub open spec fn wf(&self) -> bool {
        &&& self.width > 0
        &&& self.height > 0
        &&& self.x_scale > 0
        &&& self.y_scale > 0
        &&& self.visual_width == self.width * self.x_scale + self.x_padding * 2
        &&& self.visual_height == self.height * self.y_scale + self.y_padding * 2
        &&& forall|c: int|
            0 <= c < self.data@.len() && (#[trigger] self.data@[c]) is Some ==> self.data@[c]->0@.len()
                >= self.height * row_bytes(self.width as int)
    }

    /// Pixel `ox` of row `oy` of the glyph of `ch` is set.
    pub open spec fn glyph_set(&self, ch: int, oy: int, ox: int) -> bool {
        self.data@[ch]->0@[oy * row_bytes(self.width as int) + ox / 8] & (1u8 << ((ox % 8) as u8))
            != 0
    }

    /// Colors of the scaled row `oy` of the glyph of `ch`.
    pub open spec fn line_colors(&self, ch: int, oy: int, fg: u32, bg: u32) -> Seq<u32> {
        Seq::new(
            (self.width * self.x_scale) as nat,
            |k: int|
                if self.glyph_set(ch, oy, k / (self.x_scale as int)) {
                    fg
                } else {
                    bg
                },
        )
    }

    /// Row `oy` of the glyph of `ch` is all background.
    pub open spec fn blank(&self, ch: int, oy: int, fg: u32, bg: u32) -> bool {
        forall|k: int|
            0 <= k < self.width * self.x_scale ==> #[trigger] self.line_colors(ch, oy, fg, bg)[k]
                == bg
    }

    /// Pixels `buf` after drawing the first `n` glyph rows of `ch` in the cell at (`x`, `y`):
    /// a row that is all background is skipped, others are written `y_scale` times.
    pub open spec fn drawn_rows(
        &self,
        buf: Seq<u32>,
        ch: int,
        x: int,
        y: int,
        fg: u32,
        bg: u32,
        pps: int,
        n: nat,
    ) -> Seq<u32>
        decreases n,
    {
        if n == 0 {
            buf
        } else {
            let prev = self.drawn_rows(buf, ch, x, y, fg, bg, pps, (n - 1) as nat);
            let oy = n - 1;
            if self.blank(ch, oy, fg, bg) {
                prev
            } else {
                drawn_lines(
                    prev,
                    y + self.y_padding + oy * self.y_scale,
                    x + self.x_padding,
                    pps,
                    self.line_colors(ch, oy, fg, bg),
                    self.y_scale as nat,
                )
            }
        }
    }

    /// Pixels `buf` after drawing `ch` in the cell at (`x`, `y`). Characters without a glyph
    /// draw nothing.
    pub open spec fn drawn(
        &self,
        buf: Seq<u32>,
        ch: int,
        x: int,
        y: int,
        fg: u32,
        bg: u32,
        pps: int,
    ) -> Seq<u32> {
        if ch >= self.data@.len() || self.data@[ch] is None {
            buf
        } else {
            self.drawn_rows(buf, ch, x, y, fg, bg, pps, self.height as nat)
        }
    }

    /// A font over glyphs `data` of `width` by `height` pixels, scaled by `x_scale` and
    /// `y_scale` and padded by `x_padding` and `y_padding` on each side.
    pub fn new(
        data: Vec<Option<Vec<u8>>>,
        width: usize,
        height: usize,
        x_padding: usize,
        y_padding: usize,
        x_scale: usize,
        y_scale: usize,
    ) -> (r: Self)
        requires
            width > 0,
            height > 0,
            x_scale > 0,
            y_scale > 0,
            width * x_scale + x_padding * 2 <= usize::MAX,
            height * y_scale + y_padding * 2 <= usize::MAX,
            forall|c: int|
                0 <= c < data@.len() && (#[trigger] data@[c]) is Some ==> data@[c]->0@.len()
                    >= height * row_bytes(width as int),
        ensures
            r.wf(),
            r.data == data,
            r.width == width,
            r.height == height,
            r.x_padding == x_padding,
            r.y_padding == y_padding,
            r.x_scale == x_scale,
            r.y_scale == y_scale,
    {
        Self {
            data,
            width,
            height,
            visual_width: width * x_scale + x_padding * 2,
            visual_height: height * y_scale + y_padding * 2,
            x_padding,
            y_padding,
            x_scale,
            y_scale,
        }
    }

    /// Draw `ch` in `foreground` on `background` into the cell whose top left pixel is at
    /// (`x`, `y`), building each scaled row in `line_buffer`. Rows that are all background
    /// are not written.
    pub fn draw(
        &self,
        ch: u8,
        x: usize,
        y: usize,
        foreground: u32,
        background: u32,
        line_buffer: &mut Vec<u32>,
        framebuffer: &mut Framebuffer,
    )
        requires
            self.wf(),
            old(framebuffer).wf(),
            old(line_buffer)@.len() == self.width * self.x_scale,
            x + self.visual_width <= old(framebuffer).width,
            y + self.visual_height <= old(framebuffer).height,
        ensures
            final(framebuffer).buffer@ == self.drawn(
                old(framebuffer).buffer@,
                ch as int,
                x as int,
                y as int,
                foreground,
                background,
                old(framebuffer).pixels_per_scanline as int,
            ),
            final(framebuffer).width == old(framebuffer).width,
            final(framebuffer).height == old(framebuffer).height,
            final(framebuffer).pixels_per_scanline == old(framebuffer).pixels_per_scanline,
            final(framebuffer).format == old(framebuffer).format,
            final(framebuffer).color_mode == old(framebuffer).color_mode,
            final(framebuffer).buffer@.len() == old(framebuffer).buffer@.len(),
            final(line_buffer)@.len() == old(line_buffer)@.len(),
    {
        let char_index = ch as usize;
        if char_index >= self.data.len() {
            return;
        }
        let char_data = match &self.data[char_index] {
            Some(d) => d,
            None => return,
        };
        let ghost old_buf = framebuffer.buffer@;
        let ghost pps = framebuffer.pixels_per_scanline as int;
        let ghost rb = row_bytes(self.width as int);
        let line_size = self.width * self.x_scale;
        proof {
            assert(self.width * self.x_scale <= self.visual_width);
            assert(self.height * self.y_scale <= self.visual_height);
            assert(char_data@.len() >= self.height * rb);
        }
        let data_len = char_data.len();
        let mut index: usize = 0;
        let mut bit: usize = 0;
        let mut oy: usize = 0;
        while oy < self.height
            invariant
                self.wf(),
                data_len == char_data@.len(),
                framebuffer.wf(),
                char_index == ch as int,
                char_index < self.data@.len(),
                self.data@[char_index as int] == Some(*char_data),
                char_data@.len() >= self.height * rb,
                rb == row_bytes(self.width as int),
                line_size == self.width * self.x_scale,
                line_buffer@.len() == line_size,
                oy <= self.height,
                index == oy * rb,
                bit == 0,
                x + self.visual_width <= framebuffer.width,
                y + self.visual_height <= framebuffer.height,
                pps == framebuffer.pixels_per_scanline,
                framebuffer.width == old(framebuffer).width,
                framebuffer.height == old(framebuffer).height,
                framebuffer.pixels_per_scanline == old(framebuffer).pixels_per_scanline,
                framebuffer.format == old(framebuffer).format,
                framebuffer.color_mode == old(framebuffer).color_mode,
                framebuffer.buffer@.len() == old(framebuffer).buffer@.len(),
                old_buf == old(framebuffer).buffer@,
                framebuffer.buffer@ == self.drawn_rows(
                    old_buf,
                    ch as int,
                    x as int,
                    y as int,
                    foreground,
                    background,
                    pps,
                    oy as nat,
                ),
            decreases self.height - oy,
        {
            proof {
                assert((oy + 1) * rb <= self.height * rb) by (nonlinear_arith)
                    requires
                        oy < self.height,
                        rb >= 0,
                ;
                assert(oy * rb + rb == (oy + 1) * rb) by (nonlinear_arith);
            }
            let mut ox: usize = 0;
            while ox < self.width
                invariant
                    self.wf(),
                    data_len == char_data@.len(),
                    char_data@.len() >= self.height * rb,
                    (oy + 1) * rb <= self.height * rb,
                    oy * rb + rb == (oy + 1) * rb,
                    rb == row_bytes(self.width as int),
                    oy < self.height,
                    ox <= self.width,
                    index == oy * rb + ox / 8,
                    bit == ox % 8,
                    line_size == self.width * self.x_scale,
                    line_buffer@.len() == line_size,
                    forall|k: int|
                        0 <= k < ox * self.x_scale ==> #[trigger] line_buffer@[k] == (if self.glyph_set_in(
                            *char_data,
                            oy as int,
                            k / (self.x_scale as int),
                        ) {
                            foreground
                        } else {
                            background
                        }),
                decreases self.width - ox,
            {
                proof {
                    assert(ox / 8 < rb);
                    assert(index < char_data@.len());
                    assert((ox + 1) * self.x_scale <= self.width * self.x_scale) by (nonlinear_arith)
                        requires
                            ox < self.width,
                    ;
                    assert(ox * self.x_scale + self.x_scale == (ox + 1) * self.x_scale) by (nonlinear_arith);
                }
                let set = char_data[index] & (1u8 << (bit as u8)) != 0;
                let color = if set {
                    foreground
                } else {
                    background
                };
                let ghost row_done = line_buffer@;
                let mut i: usize = 0;
                while i < self.x_scale
                    invariant
                        self.wf(),
                        i <= self.x_scale,
                        ox < self.width,
                        (ox + 1) * self.x_scale <= self.width * self.x_scale,
                        ox * self.x_scale + self.x_scale == (ox + 1) * self.x_scale,
                        line_size == self.width * self.x_scale,
                        line_buffer@.len() == line_size,
                        forall|k: int|
                            0 <= k < ox * self.x_scale ==> #[trigger] line_buffer@[k] == row_done[k],
                        forall|k: int|
                            ox * self.x_scale <= k < ox * self.x_scale + i ==> #[trigger] line_buffer@[k]
                                == color,
                    decreases self.x_scale - i,
                {
                    line_buffer.set(ox * self.x_scale + i, color);
                    i += 1;
                }
                proof {
                    assert forall|k: int| 0 <= k < (ox + 1) * self.x_scale implies #[trigger] line_buffer@[k] == (if self.glyph_set_in(
                        *char_data,
                        oy as int,
                        k / (self.x_scale as int),
                    ) {
                        foreground
                    } else {
                        background
                    }) by {
                        if k >= ox * self.x_scale {
                            assert(k / (self.x_scale as int) == ox) by (nonlinear_arith)
                                requires
                                    ox * self.x_scale <= k < ox * self.x_scale + self.x_scale,
                                    self.x_scale > 0,
                            ;
                        }
                    }
                }
                bit += 1;
                if bit >= 8 {
                    bit = 0;
                    index += 1;
                }
                ox += 1;
            }
            if bit != 0 {
                bit = 0;
                index += 1;
            }
            proof {
                assert(line_buffer@ =~= self.line_colors(ch as int, oy as int, foreground, background));
            }

            // Draw the row only if it is not all background.
            let mut all_background = true;
            let mut k: usize = 0;
            while k < line_buffer.len()
                invariant
                    k <= line_buffer@.len(),
                    all_background == (forall|j: int| 0 <= j < k ==> line_buffer@[j] == background),
                decreases line_buffer@.len() - k,
            {
                if line_buffer[k] != background {
                    all_background = false;
                }
                k += 1;
            }
            if !all_background {
                let ghost before = framebuffer.buffer@;
                proof {
                    assert(oy * self.y_scale + self.y_scale <= self.height * self.y_scale) by (nonlinear_arith)
                        requires
                            oy < self.height,
                    ;
                }
                let row = y + self.y_padding + oy * self.y_scale;
                let mut i: usize = 0;
                while i < self.y_scale
                    invariant
                        self.wf(),
                        framebuffer.wf(),
                        i <= self.y_scale,
                        oy < self.height,
                        row == y + self.y_padding + oy * self.y_scale,
                        oy * self.y_scale + self.y_scale <= self.height * self.y_scale,
                        x + self.visual_width <= framebuffer.width,
                        y + self.visual_height <= framebuffer.height,
                        pps == framebuffer.pixels_per_scanline,
                        line_buffer@.len() == self.width * self.x_scale,
                        framebuffer.width == old(framebuffer).width,
                        framebuffer.height == old(framebuffer).height,
                        framebuffer.pixels_per_scanline == old(framebuffer).pixels_per_scanline,
                        framebuffer.format == old(framebuffer).format,
                        framebuffer.color_mode == old(framebuffer).color_mode,
                        framebuffer.buffer@.len() == old(framebuffer).buffer@.len(),
                        framebuffer.buffer@ == drawn_lines(before, row as int, x + self.x_padding, pps, line_buffer@, i as nat),
                    decreases self.y_scale - i,
                {
                    framebuffer.set_pixels_in_line(x + self.x_padding, row + i, line_buffer.as_slice());
                    i += 1;
                }
            }
            oy += 1;
        }
    }

    /// Pixel `ox` of row `oy` of glyph bitmap `d` is set.
    pub open spec fn glyph_set_in(&self, d: Vec<u8>, oy: int, ox: int) -> bool {
        d@[oy * row_bytes(self.width as int) + ox / 8] & (1u8 << ((ox % 8) as u8)) != 0
    }

    /// Number of pixels in a scaled glyph row.
    pub fn line_size(&self) -> (r: usize)
        requires
            self.wf(),
        ensures
            r == self.width * self.x_scale,
    {
        proof {
            assert(self.width * self.x_scale <= self.visual_width);
        }
        self.width * self.x_scale
    }
}


/// `buf[a..a + n]` equals `buf[b..b + n]`.
fn ranges_equal(buf: &Vec<u32>, a: usize, b: usize, n: usize) -> (r: bool)
    requires
        a + n <= buf@.len(),
        b + n <= buf@.len(),
    ensures
        r == (buf@.subrange(a as int, a + n) == buf@.subrange(b as int, b + n)),
{
    let len = buf.len();
    let mut i: usize = 0;
    while i < n
        invariant
            len == buf@.len(),
            i <= n,
            a + n <= buf@.len(),
            b + n <= buf@.len(),
            forall|j: int| a <= j < a + i ==> #[trigger] buf@[j] == buf@[j - a + b],
        decreases n - i,
    {
        if buf[a + i] != buf[b + i] {
            assert(buf@.subrange(a as int, a + n)[i as int] != buf@.subrange(b as int, b + n)[i as int]);
            return false;
        }
        i += 1;
    }
    assert(buf@.subrange(a as int, a + n) =~= buf@.subrange(b as int, b + n));
    true
}

/// Every value of `buf[start..start + n]` is `v`.
fn range_all(buf: &Vec<u32>, start: usize, n: usize, v: u32) -> (r: bool)
    requires
        start + n <= buf@.len(),
    ensures
        r == (forall|j: int| start <= j < start + n ==> buf@[j] == v),
{
    let len = buf.len();
    let mut i: usize = 0;
    while i < n
        invariant
            len == buf@.len(),
            i <= n,
            start + n <= buf@.len(),
            forall|j: int| start <= j < start + i ==> buf@[j] == v,
        decreases n - i,
    {
        if buf[start + i] != v {
            return false;
        }
        i += 1;
    }
    true
}

/// Copy `buf[from..from + n]` down to `buf[to..to + n]`.
fn copy_down(buf: &mut Vec<u32>, from: usize, to: usize, n: usize)
    requires
        to <= from,
        from + n <= old(buf)@.len(),
    ensures
        final(buf)@ == write_range(old(buf)@, to as int, old(buf)@.subrange(from as int, from + n)),
{
    let len = buf.len();
    let mut i: usize = 0;
    while i < n
        invariant
            len == buf@.len(),
            i <= n,
            to <= from,
            from + n <= buf@.len(),
            buf@.len() == old(buf)@.len(),
            forall|j: int|
                0 <= j < buf@.len() ==> #[trigger] buf@[j] == (if to <= j < to + i {
                    old(buf)@[j - to + from]
                } else {
                    old(buf)@[j]
                }),
        decreases n - i,
    {
        let value = buf[from + i];
        buf.set(to + i, value);
        i += 1;
    }
    assert(buf@ =~= write_range(old(buf)@, to as int, old(buf)@.subrange(from as int, from + n)));
}

/// Set `buf[start..start + n]` to `v`.
fn fill(buf: &mut Vec<u32>, start: usize, n: usize, v: u32)
    requires
        start + n <= old(buf)@.len(),
    ensures
        final(buf)@ == fill_range(old(buf)@, start as int, n as int, v),
{
    let len = buf.len();
    let mut i: usize = 0;
    while i < n
        invariant
            len == buf@.len(),
            i <= n,
            start + n <= buf@.len(),
            buf@.len() == old(buf)@.len(),
            forall|j: int|
                0 <= j < buf@.len() ==> #[trigger] buf@[j] == (if start <= j < start + i {
                    v
                } else {
                    old(buf)@[j]
                }),
        decreases n - i,
    {
        buf.set(start + i, v);
        i += 1;
    }
    assert(buf@ =~= fill_range(old(buf)@, start as int, n as int, v));
}

/// Pixel at column `col` of pixel line `row` of `buf`, lines being `pps` pixels apart.
pub open spec fn pixel(buf: Seq<u32>, pps: int, row: int, col: int) -> u32 {
    buf[row * pps + col]
}

/// End of part `p` of a line `w` cells wide split into 32 parts; the last part takes the
/// remainder.
pub open spec fn part_end(w: int, p: int) -> int {
    if p == 31 {
        w
    } else {
        p * (w / 32) + w / 32
    }
}

/// Start and end of the part, of a line `w` cells wide split into 32 parts, that holds cell
/// `cx`.
pub open spec fn part_bounds(w: int, cx: int) -> (int, int) {
    let ps = w / 32;
    if ps == 0 || cx / ps >= 31 {
        (31 * ps, w)
    } else {
        (cx / ps * ps, cx / ps * ps + ps)
    }
}

/// The text of the part holding cell `cx` differs between line `ty` and the line below it.
pub open spec fn part_changed(t: Seq<u32>, w: int, ty: int, cx: int) -> bool {
    let (s, e) = part_bounds(w, cx);
    t.subrange(ty * w + s, ty * w + e) != t.subrange((ty + 1) * w + s, (ty + 1) * w + e)
}

/// The text of the part holding cell `cx` of line `ty` is all empty cells.
pub open spec fn part_clear(t: Seq<u32>, w: int, ty: int, cx: int) -> bool {
    let (s, e) = part_bounds(w, cx);
    forall|j: int| ty * w + s <= j < ty * w + e ==> t[j] == EMPTY_CELL
}

/// A pixel lies in a span of `n` pixels starting at column `gx` of line `gy` exactly when it
/// is on that line and within those columns.
proof fn lemma_pixel_in_span(row: int, col: int, gy: int, gx: int, n: int, pps: int)
    requires
        0 <= row,
        0 <= gy,
        0 <= col < pps,
        0 <= gx,
        0 <= n,
        gx + n <= pps,
    ensures
        (gy * pps + gx <= row * pps + col < gy * pps + gx + n) <==> (row == gy && gx <= col < gx
            + n),
{
    if row < gy {
        assert(row * pps + pps <= gy * pps) by (nonlinear_arith)
            requires
                row < gy,
                pps >= 0,
        ;
    } else if row > gy {
        assert(gy * pps + pps <= row * pps) by (nonlinear_arith)
            requires
                gy < row,
                pps >= 0,
        ;
    }
}

/// Bounds on a quotient from bounds on the dividend.
proof fn lemma_div_between(x: int, d: int, a: int, b: int)
    requires
        d > 0,
        a * d <= x < b * d,
    ensures
        a <= x / d < b,
{
    vstd::arithmetic::div_mod::lemma_fundamental_div_mod(x, d);
    let q = x / d;
    let r = x % d;
    assert(a <= q < b) by (nonlinear_arith)
        requires
            d > 0,
            x == d * q + r,
            0 <= r < d,
            a * d <= x < b * d,
    ;
}

/// Cells from the start of part `p` to its end belong to part `p`.
proof fn lemma_part_of(w: int, p: int, cx: int)
    requires
        w >= 0,
        0 <= p < 32,
        p * (w / 32) <= cx < part_end(w, p),
    ensures
        part_bounds(w, cx) == (p * (w / 32), part_end(w, p)),
{
    let ps = w / 32;
    if ps > 0 {
        if p < 31 {
            assert(p * ps + ps == (p + 1) * ps) by (nonlinear_arith);
            lemma_div_between(cx, ps, p, p + 1);
        } else {
            assert(cx < (cx + 1) * ps) by (nonlinear_arith)
                requires
                    ps > 0,
                    cx >= 0,
            ;
            lemma_div_between(cx, ps, 31, cx + 1);
        }
    }
}

/// Text `t` of a `w` by `h` console after every line moved one line up; the last line keeps
/// its contents.
pub open spec fn scrolled(t: Seq<u32>, w: int, h: int) -> Seq<u32> {
    Seq::new(
        t.len(),
        |i: int|
            if i < (h - 1) * w {
                t[i + w]
            } else {
                t[i]
            },
    )
}

/// Text `t` of a console `w` cells wide with line `y` cleared.
pub open spec fn cleared_line(t: Seq<u32>, w: int, y: int) -> Seq<u32> {
    fill_range(t, y * w, w, EMPTY_CELL)
}

/// Console text and cursor line after a new line on line `y` of a `w` by `h` console: the
/// cursor moves down, or at the bottom everything scrolls up and the last line is cleared.
pub open spec fn newline_text(t: Seq<u32>, w: int, h: int, y: int) -> (Seq<u32>, int) {
    if y + 1 < h {
        (t, y + 1)
    } else {
        (cleared_line(scrolled(t, w, h), w, h - 1), h - 1)
    }
}

/// Byte drawn for `ch`: itself when ASCII, `?` otherwise.
pub open spec fn char_byte(ch: char) -> u8 {
    if (ch as u32) < 128 {
        ch as u8
    } else {
        63u8
    }
}

/// Console text and cursor after writing `ch` at (`x`, `y`) in `color` on a `w` by `h`
/// console: carriage return and line feed move the cursor, other characters are stored and
/// the cursor advances, wrapping at the end of the line.
pub open spec fn put_char(t: Seq<u32>, w: int, h: int, x: int, y: int, ch: char, color: u32) -> (
    Seq<u32>,
    int,
    int,
) {
    if ch == '\r' {
        (t, 0, y)
    } else if ch == '\n' {
        let (t2, y2) = newline_text(t, w, h, y);
        (t2, 0, y2)
    } else {
        let t1 = t.update(x + y * w, spec_encode_char(char_byte(ch), color));
        if x + 1 >= w {
            let (t2, y2) = newline_text(t1, w, h, y);
            (t2, 0, y2)
        } else {
            (t1, x + 1, y)
        }
    }
}

/// A carriage return moves the cursor to the start of its line and changes no text; a line
/// feed moves it to the start of the next line, or at the bottom scrolls the text up one
/// line, keeping the cursor on the last line, which it clears.
pub proof fn lemma_line_controls(t: Seq<u32>, w: int, h: int, x: int, y: int, color: u32)
    requires
        w >= 1,
        h >= 2,
        0 <= y < h,
        t.len() == w * h,
    ensures
        put_char(t, w, h, x, y, '\r', color) == (t, 0int, y),
        y + 1 < h ==> put_char(t, w, h, x, y, '\n', color) == (t, 0int, y + 1),
        y + 1 >= h ==> ({
            let (t2, x2, y2) = put_char(t, w, h, x, y, '\n', color);
            &&& x2 == 0 && y2 == h - 1
            &&& t2.len() == t.len()
            &&& forall|i: int| 0 <= i < (h - 1) * w ==> #[trigger] t2[i] == t[i + w]
            &&& forall|i: int| (h - 1) * w <= i < h * w ==> #[trigger] t2[i] == EMPTY_CELL
        }),
{
    assert((h - 1) * w + w == h * w) by (nonlinear_arith);
}

/// Writing any other character stores it, ASCII as itself and anything else as `?`, in the
/// foreground color at the cursor cell, and moves the cursor one cell right; at the end of a
/// line that is not the last the cursor goes to the start of the next line.
pub proof fn lemma_put_printable(t: Seq<u32>, w: int, h: int, x: int, y: int, ch: char, color: u32)
    requires
        w >= 1,
        h >= 2,
        0 <= x < w,
        0 <= y < h,
        t.len() == w * h,
        ch != '\r',
        ch != '\n',
    ensures
        ({
            let (t2, x2, y2) = put_char(t, w, h, x, y, ch, color);
            let b: u8 = if (ch as u32) < 128 { ch as u8 } else { 63u8 };
            &&& x + 1 < w ==> x2 == x + 1 && y2 == y
            &&& x + 1 >= w && y + 1 < h ==> x2 == 0 && y2 == y + 1
            &&& (x + 1 < w || y + 1 < h) ==> {
                &&& t2.len() == t.len()
                &&& t2[y * w + x] == spec_encode_char(b, color)
                &&& forall|i: int| 0 <= i < t.len() && i != y * w + x ==> #[trigger] t2[i] == t[i]
            }
        }),
{
    assert(0 <= y * w + x < h * w) by (nonlinear_arith)
        requires
            0 <= x < w,
            0 <= y < h,
    ;
    assert(x + y * w == y * w + x) by (nonlinear_arith);
}

/// Console text and cursor after writing `s`.
pub open spec fn put_string(t: Seq<u32>, w: int, h: int, x: int, y: int, s: Seq<char>, color: u32) -> (
    Seq<u32>,
    int,
    int,
)
    decreases s.len(),
{
    if s.len() == 0 {
        (t, x, y)
    } else {
        let (t1, x1, y1) = put_string(t, w, h, x, y, s.drop_last(), color);
        put_char(t1, w, h, x1, y1, s.last(), color)
    }
}

/// Writing `s1` and then `s2` leaves the same text and cursor as writing `s1 + s2` at once.
pub proof fn lemma_put_string_append(
    t: Seq<u32>,
    w: int,
    h: int,
    x: int,
    y: int,
    s1: Seq<char>,
    s2: Seq<char>,
    color: u32,
)
    ensures
        ({
            let (t1, x1, y1) = put_string(t, w, h, x, y, s1, color);
            put_string(t1, w, h, x1, y1, s2, color) == put_string(t, w, h, x, y, s1 + s2, color)
        }),
    decreases s2.len(),
{
    if s2.len() == 0 {
        assert(s1 + s2 =~= s1);
    } else {
        lemma_put_string_append(t, w, h, x, y, s1, s2.drop_last(), color);
        assert((s1 + s2).drop_last() =~= s1 + s2.drop_last());
        assert((s1 + s2).last() == s2.last());
    }
}

/// A text console drawn on a framebuffer.
pub struct TextFramebuffer {
    pub framebuffer: Framebuffer,
    pub font: Font,
    pub x: usize,
    pub y: usize,
    pub width: usize,
    pub height: usize,
    pub background: u32,
    pub foreground: u32,
    pub default_foreground: u32,
    pub line_buffer: Vec<u32>,
    pub text: Vec<u32>,
}

proof fn lemma_mul_le(a: int, b: int, c: int)
    requires
        0 <= a <= b,
        0 <= c,
    ensures
        a * c <= b * c,
{
    assert(a * c <= b * c) by (nonlinear_arith)
        requires
            0 <= a <= b,
            0 <= c,
    ;
}

impl TextFramebuffer {
    /// The console fits the framebuffer, the cursor is on it, and colors are valid.
    pub open spec fn wf(&self) -> bool {
        &&& self.framebuffer.wf()
        &&& self.font.wf()
        &&& self.framebuffer.color_mode != ColorMode::Custom
        &&& self.width >= 2
        &&& self.height >= 2
        &&& self.width * self.font.visual_width <= self.framebuffer.width
        &&& self.height * self.font.visual_height <= self.framebuffer.height
        &&& self.x < self.width
        &&& self.y < self.height
        &&& self.text@.len() == self.width * self.height
        &&& self.line_buffer@.len() == self.font.width * self.font.x_scale
        &&& self.foreground & 0xff00_0000 == 0
        &&& self.default_foreground & 0xff00_0000 == 0
        &&& self.background & 0xff00_0000 == 0
    }

    /// The console is shaped the same and uses the same colors and font.
    pub open spec fn same_setup(&self, other: &Self) -> bool {
        &&& self.width == other.width
        &&& self.height == other.height
        &&& self.font == other.font
        &&& self.background == other.background
        &&& self.foreground == other.foreground
        &&& self.default_foreground == other.default_foreground
        &&& self.framebuffer.width == other.framebuffer.width
        &&& self.framebuffer.height == other.framebuffer.height
        &&& self.framebuffer.pixels_per_scanline == other.framebuffer.pixels_per_scanline
        &&& self.framebuffer.format == other.framebuffer.format
        &&& self.framebuffer.color_mode == other.framebuffer.color_mode
        &&& self.framebuffer.buffer@.len() == other.framebuffer.buffer@.len()
        &&& self.line_buffer@.len() == other.line_buffer@.len()
    }

    /// Text value of `ch` drawn in `color`; spaces and NULs carry no color.
    pub fn encode_colored_character(ch: u8, color: u32) -> (r: u32)
        requires
            color & 0xff00_0000 == 0,
        ensures
            r == spec_encode_char(ch, color),
    {
        // Ignore color for empty characters.
        let color = if ch == 0 || ch == 32 {
            0
        } else {
            color
        };
        color | (ch as u32) << 24
    }

    /// A console covering `framebuffer` in cells of `font`, empty, with the cursor at the top
    /// left, white on black.
    pub fn new(framebuffer: Framebuffer, font: Font) -> (r: Self)
        requires
            framebuffer.wf(),
            font.wf(),
            framebuffer.color_mode != ColorMode::Custom,
            font.visual_width > 0,
            font.visual_height > 0,
            framebuffer.width / font.visual_width > 1,
            framebuffer.height / font.visual_height > 1,
        ensures
            r.wf(),
            r.width == framebuffer.width / font.visual_width,
            r.height == framebuffer.height / font.visual_height,
            r.x == 0 && r.y == 0,
            r.font == font,
            r.background == spec_convert_color(framebuffer.color_mode, 0),
            r.default_foreground == spec_convert_color(
                framebuffer.color_mode,
                DEFAULT_FOREGROUND_COLOR,
            ),
            r.foreground == r.default_foreground,
            r.text@ == Seq::new(r.text@.len(), |i: int| EMPTY_CELL),
            r.framebuffer.buffer@ == Seq::new(framebuffer.buffer@.len(), |i: int| r.background),
            r.framebuffer.width == framebuffer.width,
            r.framebuffer.height == framebuffer.height,
            r.framebuffer.pixels_per_scanline == framebuffer.pixels_per_scanline,
            r.framebuffer.color_mode == framebuffer.color_mode,
    {
        let width = framebuffer.width / font.visual_width;
        let height = framebuffer.height / font.visual_height;
        proof {
            assert(width * font.visual_width <= framebuffer.width) by (nonlinear_arith)
                requires
                    font.visual_width > 0,
                    width == framebuffer.width / font.visual_width,
            ;
            assert(height * font.visual_height <= framebuffer.height) by (nonlinear_arith)
                requires
                    font.visual_height > 0,
                    height == framebuffer.height / font.visual_height,
            ;
            lemma_mul_le(width as int, framebuffer.width as int, height as int);
            lemma_mul_le(height as int, framebuffer.height as int, framebuffer.width as int);
            lemma_mul_le(framebuffer.width as int, framebuffer.pixels_per_scanline as int, framebuffer.height as int);
            assert(width * height == height * width) by (nonlinear_arith);
            assert(framebuffer.width * framebuffer.height == framebuffer.height * framebuffer.width) by (nonlinear_arith);
            assert(framebuffer.pixels_per_scanline * framebuffer.height == framebuffer.height * framebuffer.pixels_per_scanline) by (nonlinear_arith);
            assert(width <= framebuffer.width) by (nonlinear_arith)
                requires
                    font.visual_width > 0,
                    width == framebuffer.width / font.visual_width,
            ;
        }
        let buffer_len = framebuffer.buffer.len();
        proof {
            lemma_color_bits(0);
            lemma_color_bits(0xffffff);
        }
        let background = framebuffer.convert_color(0x000000);
        let default_foreground = framebuffer.convert_color(DEFAULT_FOREGROUND_COLOR);
        let empty_char = Self::encode_colored_character(32, default_foreground);
        proof {
            lemma_color_bits(0);
        }
        let line_size = font.line_size();
        let line_buffer = vec![0u32; line_size];
        let text = vec![empty_char; width * height];
        let mut text_fb = Self {
            line_buffer,
            text,
            font,
            x: 0,
            y: 0,
            width,
            height,
            framebuffer,
            default_foreground,
            foreground: default_foreground,
            background,
        };
        text_fb.framebuffer.clear(text_fb.background);
        proof {
            assert(text_fb.text@ =~= Seq::new(text_fb.text@.len(), |i: int| EMPTY_CELL));
        }
        text_fb
    }

    /// Division of a text line into the parts that scrolling and clearing compare and
    /// redraw one by one.
    pub fn split_text_line(&self) -> (r: LineSplit)
        ensures
            r.part_count == 32,
            r.part_size == self.width / 32,
            r.last_add == self.width - 32 * (self.width / 32),
    {
        LineSplit::new(self.width, 32)
    }

    /// Pixel at column `col` of pixel line `row` after the text `t` scrolls up one line over
    /// pixels `buf`: in every part of a text line whose text differs from the line below, the
    /// pixels are copied from the line below; all others stay.
    pub open spec fn scroll_pixel(&self, buf: Seq<u32>, t: Seq<u32>, row: int, col: int) -> u32 {
        let pps = self.framebuffer.pixels_per_scanline as int;
        let vw = self.font.visual_width as int;
        let vh = self.font.visual_height as int;
        if row < (self.height - 1) * vh && col < self.width * vw && part_changed(
            t,
            self.width as int,
            row / vh,
            col / vw,
        ) {
            pixel(buf, pps, row + vh, col)
        } else {
            pixel(buf, pps, row, col)
        }
    }

    /// Pixels `buf` after the text `t` scrolls up one line.
    pub open spec fn scrolled_pixels(&self, buf: Seq<u32>, t: Seq<u32>) -> Seq<u32> {
        let pps = self.framebuffer.pixels_per_scanline as int;
        Seq::new(buf.len(), |i: int| self.scroll_pixel(buf, t, i / pps, i % pps))
    }

    /// Move every text line one line up, redrawing only the parts of lines whose text
    /// changes. The last line keeps its contents.
    pub fn scroll(&mut self)
        requires
            old(self).wf(),
        ensures
            final(self).wf(),
            final(self).same_setup(old(self)),
            final(self).x == old(self).x,
            final(self).y == old(self).y,
            final(self).text@ == scrolled(
                old(self).text@,
                old(self).width as int,
                old(self).height as int,
            ),
            final(self).framebuffer.buffer@ == old(self).scrolled_pixels(
                old(self).framebuffer.buffer@,
                old(self).text@,
            ),
    {
        // Split text characters.
        let split = self.split_text_line();
        let w = self.width;
        let h = self.height;
        let ps = split.part_size;
        let vw = self.font.visual_width;
        let vh = self.font.visual_height;
        let pps = self.framebuffer.pixels_per_scanline;
        let buffer_len = self.framebuffer.buffer.len();
        let text_len = self.text.len();
        let ghost t0 = self.text@;
        let ghost buf0 = self.framebuffer.buffer@;
        proof {
            assert(32 * ps <= w) by (nonlinear_arith)
                requires
                    ps == w / 32,
            ;
            assert((h - 1) * vh == h * vh - vh) by (nonlinear_arith);
            assert(vw > 0 && vh > 0) by (nonlinear_arith)
                requires
                    vw == self.font.width * self.font.x_scale + self.font.x_padding * 2,
                    vh == self.font.height * self.font.y_scale + self.font.y_padding * 2,
                    self.font.width > 0,
                    self.font.x_scale > 0,
                    self.font.height > 0,
                    self.font.y_scale > 0,
            ;
        }
        let parts = split.split();

        // Move every line one line up (except the first one).
        let mut text_y: usize = 0;
        while text_y < h - 1
            invariant
                self.wf(),
                self.same_setup(old(self)),
                self.x == old(self).x,
                self.y == old(self).y,
                w == self.width,
                h == self.height,
                vw == self.font.visual_width,
                vh == self.font.visual_height,
                pps == self.framebuffer.pixels_per_scanline,
                buffer_len == self.framebuffer.buffer@.len(),
                text_len == self.text@.len(),
                t0 == old(self).text@,
                buf0 == old(self).framebuffer.buffer@,
                t0.len() == text_len,
                vw > 0 && vh > 0,
                (h - 1) * vh == h * vh - vh,
                text_y <= h - 1,
                ps == w / 32,
                32 * ps <= w,
                parts@.len() == 32,
                forall|p: int|
                    0 <= p < 32 ==> (#[trigger] parts@[p]).0 == p * ps && parts@[p].1 == ps + (
                    if p == 31 {
                        w - 32 * ps
                    } else {
                        0
                    }),
                forall|i: int| 0 <= i < text_y * w ==> #[trigger] self.text@[i] == t0[i + w],
                forall|i: int| text_y * w <= i < w * h ==> #[trigger] self.text@[i] == t0[i],
                forall|row: int, col: int|
                    0 <= row && 0 <= col < pps && row * pps + col < buffer_len ==> #[trigger] pixel(
                        self.framebuffer.buffer@,
                        pps as int,
                        row,
                        col,
                    ) == (if row < text_y * vh {
                        old(self).scroll_pixel(buf0, t0, row, col)
                    } else {
                        pixel(buf0, pps as int, row, col)
                    }),
            decreases h - 1 - text_y,
        {
            proof {
                lemma_mul_le(text_y as int + 2, h as int, w as int);
                lemma_mul_le(text_y as int + 2, h as int, vh as int);
                assert((text_y + 1) * w == text_y * w + w) by (nonlinear_arith);
                assert((text_y + 2) * w == text_y * w + 2 * w) by (nonlinear_arith);
                assert((text_y + 1) * vh == text_y * vh + vh) by (nonlinear_arith);
                assert((text_y + 2) * vh == text_y * vh + 2 * vh) by (nonlinear_arith);
                assert(w * h == h * w) by (nonlinear_arith);
                assert(vh * h == h * vh) by (nonlinear_arith);
            }
            let mut p: usize = 0;
            proof {
                assert forall|row: int, col: int|
                    0 <= row && 0 <= col < pps && row * pps + col < buffer_len implies #[trigger] pixel(
                        self.framebuffer.buffer@,
                        pps as int,
                        row,
                        col,
                    ) == (if row < text_y * vh || (text_y * vh <= row < text_y * vh + vh && col
                        < (if p == 32 {
                        w as int
                    } else {
                        p * ps
                    }) * vw) {
                        old(self).scroll_pixel(buf0, t0, row, col)
                    } else {
                        pixel(buf0, pps as int, row, col)
                    }) by {
                    assert((if p == 32 {
                        w as int
                    } else {
                        p * ps
                    }) * vw == 0) by (nonlinear_arith)
                        requires
                            p == 0,
                    ;
                }
            }
            while p < parts.len()
                invariant
                    self.wf(),
                    self.same_setup(old(self)),
                    self.x == old(self).x,
                    self.y == old(self).y,
                    w == self.width,
                    h == self.height,
                    vw == self.font.visual_width,
                    vh == self.font.visual_height,
                    pps == self.framebuffer.pixels_per_scanline,
                    buffer_len == self.framebuffer.buffer@.len(),
                    text_len == self.text@.len(),
                    t0 == old(self).text@,
                    buf0 == old(self).framebuffer.buffer@,
                    t0.len() == text_len,
                    vw > 0 && vh > 0,
                    (h - 1) * vh == h * vh - vh,
                    text_y < h - 1,
                    (text_y + 2) * w <= h * w,
                    (text_y + 2) * vh <= h * vh,
                    (text_y + 1) * w == text_y * w + w,
                    (text_y + 2) * w == text_y * w + 2 * w,
                    (text_y + 1) * vh == text_y * vh + vh,
                    (text_y + 2) * vh == text_y * vh + 2 * vh,
                    w * h == h * w,
                    ps == w / 32,
                    32 * ps <= w,
                    parts@.len() == 32,
                    p <= 32,
                    forall|q: int|
                        0 <= q < 32 ==> (#[trigger] parts@[q]).0 == q * ps && parts@[q].1 == ps + (
                        if q == 31 {
                            w - 32 * ps
                        } else {
                            0
                        }),
                    forall|i: int|
                        0 <= i < text_y * w + (if p == 32 {
                            w as int
                        } else {
                            p * ps
                        }) ==> #[trigger] self.text@[i] == t0[i + w],
                    forall|i: int|
                        text_y * w + (if p == 32 {
                            w as int
                        } else {
                            p * ps
                        }) <= i < w * h ==> #[trigger] self.text@[i] == t0[i],
                    forall|row: int, col: int|
                        0 <= row && 0 <= col < pps && row * pps + col < buffer_len ==> #[trigger] pixel(
                            self.framebuffer.buffer@,
                            pps as int,
                            row,
                            col,
                        ) == (if row < text_y * vh || (text_y * vh <= row < text_y * vh + vh && col
                            < (if p == 32 {
                            w as int
                        } else {
                            p * ps
                        }) * vw) {
                            old(self).scroll_pixel(buf0, t0, row, col)
                        } else {
                            pixel(buf0, pps as int, row, col)
                        }),
                decreases 32 - p,
            {
                let (text_x, text_size) = parts[p];
                proof {
                    assert(p * ps + ps == (p + 1) * ps) by (nonlinear_arith);
                    lemma_mul_le(p as int + 1, 32, ps as int);
                    assert(32 * ps == ps * 32) by (nonlinear_arith);
                    assert(text_x + text_size <= w);
                    lemma_mul_le(text_x as int + text_size as int, w as int, vw as int);
                    assert(w * vw == vw * w) by (nonlinear_arith);
                    assert((text_x + text_size) * vw == text_x * vw + text_size * vw) by (nonlinear_arith);
                    assert(text_x + text_size == part_end(w as int, p as int));
                }
                let from = (text_y + 1) * w + text_x;
                let to = text_y * w + text_x;
                let gx = text_x * vw;
                let gsize = text_size * vw;

                let ghost text_before = self.text@;
                let ghost buf_before = self.framebuffer.buffer@;
                proof {
                    assert(text_before.subrange(to as int, to + text_size) =~= t0.subrange(
                        to as int,
                        to + text_size,
                    ));
                    assert(text_before.subrange(from as int, from + text_size) =~= t0.subrange(
                        from as int,
                        from + text_size,
                    ));
                }

                // Copy only parts where `from` is different than `to`.
                if ranges_equal(&self.text, from, to, text_size) {
                    proof {
                        assert forall|i: int| to <= i < to + text_size implies #[trigger] self.text@[i] == text_before[i + w] by {
                            assert(text_before.subrange(from as int, from + text_size)[i - to] == text_before.subrange(to as int, to + text_size)[i - to]);
                        }
                        assert forall|row: int, col: int|
                            text_y * vh <= row < text_y * vh + vh && gx <= col < gx + gsize implies #[trigger] old(self).scroll_pixel(buf0, t0, row, col) == pixel(buf0, pps as int, row, col) by {
                            lemma_div_between(row, vh as int, text_y as int, text_y + 1);
                            lemma_div_between(col, vw as int, text_x as int, text_x + text_size);
                            lemma_part_of(w as int, p as int, col / (vw as int));
                        }
                    }
                } else {
                    copy_down(&mut self.text, from, to, text_size);
                    assert(forall|i: int| to <= i < to + text_size ==> #[trigger] self.text@[i] == text_before[i + w]);
                    assert(forall|i: int| 0 <= i < self.text@.len() && !(to <= i < to + text_size) ==> #[trigger] self.text@[i] == text_before[i]);
                    proof {
                        lemma_mul_le(text_y as int + 1, h as int - 1, vh as int);
                        assert forall|row: int, col: int|
                            text_y * vh <= row < text_y * vh + vh && gx <= col < gx + gsize implies #[trigger] old(self).scroll_pixel(buf0, t0, row, col) == pixel(buf0, pps as int, row + vh, col) by {
                            lemma_div_between(row, vh as int, text_y as int, text_y + 1);
                            lemma_div_between(col, vw as int, text_x as int, text_x + text_size);
                            lemma_part_of(w as int, p as int, col / (vw as int));
                        }
                    }

                    // The text differs in this part, so copy every graphics line of it that
                    // differs.
                    let gy_end = (text_y + 1) * vh;
                    let mut gy = text_y * vh;
                    let ghost text_now = self.text@;
                    while gy < gy_end
                        invariant
                            self.same_setup(old(self)),
                            self.text@ == text_now,
                            self.x == old(self).x,
                            self.y == old(self).y,
                            pps == self.framebuffer.pixels_per_scanline,
                            buffer_len == self.framebuffer.buffer@.len(),
                            buf0 == old(self).framebuffer.buffer@,
                            gy_end == (text_y + 1) * vh,
                            gy_end == text_y * vh + vh,
                            gy_end + vh <= h * vh,
                            h * vh <= self.framebuffer.height,
                            self.framebuffer.height * pps <= buffer_len,
                            gx + gsize <= self.framebuffer.width,
                            self.framebuffer.width <= pps,
                            text_y * vh <= gy <= gy_end,
                            forall|row: int, col: int|
                                text_y * vh <= row < text_y * vh + vh && gx <= col < gx + gsize ==> #[trigger] old(self).scroll_pixel(buf0, t0, row, col) == pixel(buf0, pps as int, row + vh, col),
                            forall|row: int, col: int|
                                0 <= row && 0 <= col < pps && row * pps + col < buffer_len ==> #[trigger] pixel(
                                    self.framebuffer.buffer@,
                                    pps as int,
                                    row,
                                    col,
                                ) == (if row < text_y * vh || (text_y * vh <= row < text_y * vh + vh && (
                                col < gx || (gx <= col < gx + gsize && row < gy))) {
                                    old(self).scroll_pixel(buf0, t0, row, col)
                                } else {
                                    pixel(buf0, pps as int, row, col)
                                }),
                        decreases gy_end - gy,
                    {
                        proof {
                            lemma_row_index(gy as int + vh as int, gx as int + gsize as int, self.framebuffer.height as int, pps as int);
                            lemma_row_index(gy as int, gx as int + gsize as int, self.framebuffer.height as int, pps as int);
                        }
                        let from_index = (gy + vh) * pps + gx;
                        let to_index = gy * pps + gx;
                        proof {
                            assert((gy + vh) * pps == gy * pps + vh * pps) by (nonlinear_arith);
                            assert(0 <= vh * pps) by (nonlinear_arith)
                                requires
                                    vh >= 0,
                                    pps >= 0,
                            ;
                        }
                        let ghost old_b = self.framebuffer.buffer@;
                        let same = ranges_equal(&self.framebuffer.buffer, from_index, to_index, gsize);
                        if !same {
                            copy_down(&mut self.framebuffer.buffer, from_index, to_index, gsize);
                        }
                        proof {
                            assert forall|row: int, col: int|
                                0 <= row && 0 <= col < pps && row * pps + col < buffer_len implies #[trigger] pixel(
                                    self.framebuffer.buffer@,
                                    pps as int,
                                    row,
                                    col,
                                ) == (if row < text_y * vh || (text_y * vh <= row < text_y * vh + vh && (
                                col < gx || (gx <= col < gx + gsize && row < gy + 1))) {
                                    old(self).scroll_pixel(buf0, t0, row, col)
                                } else {
                                    pixel(buf0, pps as int, row, col)
                                }) by {
                                lemma_pixel_in_span(row, col, gy as int, gx as int, gsize as int, pps as int);
                                if row == gy && gx <= col < gx + gsize {
                                    assert(pixel(old_b, pps as int, row + vh, col) == pixel(buf0, pps as int, row + vh, col));
                                    if same {
                                        assert(old_b.subrange(from_index as int, from_index + gsize)[col - gx] == old_b.subrange(to_index as int, to_index + gsize)[col - gx]);
                                    }
                                } else {
                                    assert(pixel(old_b, pps as int, row, col) == pixel(self.framebuffer.buffer@, pps as int, row, col));
                                }
                            }
                        }
                        gy += 1;
                    }
                }
                proof {
                    let done = if p + 1 == 32 { w as int } else { (p + 1) * ps };
                    assert(text_x + text_size == done);
                    assert forall|i: int| 0 <= i < text_y * w + done implies #[trigger] self.text@[i] == t0[i + w] by {
                        if i >= to {
                            assert(text_before[i + w] == t0[i + w]);
                        } else {
                            assert(text_before[i] == t0[i + w]);
                        }
                    }
                    assert forall|i: int| text_y * w + done <= i < w * h implies #[trigger] self.text@[i] == t0[i] by {
                        assert(text_before[i] == t0[i]);
                    }
                }
                p += 1;
            }
            text_y += 1;
        }
        proof {
            assert(self.text@ =~= scrolled(t0, w as int, h as int));
            assert forall|i: int| 0 <= i < buffer_len implies self.framebuffer.buffer@[i] == old(self).scrolled_pixels(buf0, t0)[i] by {
                vstd::arithmetic::div_mod::lemma_fundamental_div_mod(i, pps as int);
                let row = i / (pps as int);
                let col = i % (pps as int);
                assert(row * pps == pps * row) by (nonlinear_arith);
                assert(0 <= row) by (nonlinear_arith)
                    requires
                        i >= 0,
                        pps > 0,
                        row == i / (pps as int),
                ;
                assert(pixel(self.framebuffer.buffer@, pps as int, row, col) == old(self).scroll_pixel(buf0, t0, row, col));
            }
            assert(self.framebuffer.buffer@ =~= old(self).scrolled_pixels(buf0, t0));
        }
    }

    /// Pixel at column `col` of pixel line `row` after text line `ty` of text `t` is cleared
    /// over pixels `buf`: in every part of that line whose text is not all empty, the pixels
    /// become the background; all others stay.
    pub open spec fn clear_pixel(&self, buf: Seq<u32>, t: Seq<u32>, ty: int, row: int, col: int) -> u32 {
        let pps = self.framebuffer.pixels_per_scanline as int;
        let vw = self.font.visual_width as int;
        let vh = self.font.visual_height as int;
        if ty * vh <= row < ty * vh + vh && col < self.width * vw && !part_clear(
            t,
            self.width as int,
            ty,
            col / vw,
        ) {
            self.background
        } else {
            pixel(buf, pps, row, col)
        }
    }

    /// Pixels `buf` after text line `ty` of text `t` is cleared.
    pub open spec fn cleared_pixels(&self, buf: Seq<u32>, t: Seq<u32>, ty: int) -> Seq<u32> {
        let pps = self.framebuffer.pixels_per_scanline as int;
        Seq::new(buf.len(), |i: int| self.clear_pixel(buf, t, ty, i / pps, i % pps))
    }

    /// Clear text line `text_y`, redrawing only the parts of it that are not already clear.
    pub fn clear_line(&mut self, text_y: usize)
        requires
            old(self).wf(),
            text_y < old(self).height,
        ensures
            final(self).wf(),
            final(self).same_setup(old(self)),
            final(self).x == old(self).x,
            final(self).y == old(self).y,
            final(self).text@ == cleared_line(old(self).text@, old(self).width as int, text_y as int),
            final(self).framebuffer.buffer@ == old(self).cleared_pixels(
                old(self).framebuffer.buffer@,
                old(self).text@,
                text_y as int,
            ),
    {
        // Split text characters.
        let split = self.split_text_line();
        let w = self.width;
        let h = self.height;
        let ps = split.part_size;
        let vw = self.font.visual_width;
        let vh = self.font.visual_height;
        let pps = self.framebuffer.pixels_per_scanline;
        let buffer_len = self.framebuffer.buffer.len();
        let text_len = self.text.len();
        let ghost t0 = self.text@;
        let ghost buf0 = self.framebuffer.buffer@;
        proof {
            assert(32 * ps <= w) by (nonlinear_arith)
                requires
                    ps == w / 32,
            ;
            lemma_mul_le(text_y as int + 1, h as int, w as int);
            lemma_mul_le(text_y as int + 1, h as int, vh as int);
            assert((text_y + 1) * w == text_y * w + w) by (nonlinear_arith);
            assert((text_y + 1) * vh == text_y * vh + vh) by (nonlinear_arith);
            assert(w * h == h * w) by (nonlinear_arith);
            assert(vh * h == h * vh) by (nonlinear_arith);
            assert(vw > 0 && vh > 0) by (nonlinear_arith)
                requires
                    vw == self.font.width * self.font.x_scale + self.font.x_padding * 2,
                    vh == self.font.height * self.font.y_scale + self.font.y_padding * 2,
                    self.font.width > 0,
                    self.font.x_scale > 0,
                    self.font.height > 0,
                    self.font.y_scale > 0,
            ;
        }
        let parts = split.split();
        let color = self.background;
        let character = Self::encode_colored_character(32, color);
        proof {
            lemma_color_bits(0);
        }

        // Clear only the parts which are not clear.
        let mut p: usize = 0;
        proof {
            assert forall|row: int, col: int|
                0 <= row && 0 <= col < pps && row * pps + col < buffer_len implies #[trigger] pixel(
                    self.framebuffer.buffer@,
                    pps as int,
                    row,
                    col,
                ) == (if text_y * vh <= row < text_y * vh + vh && col < (if p == 32 {
                    w as int
                } else {
                    p * ps
                }) * vw {
                    old(self).clear_pixel(buf0, t0, text_y as int, row, col)
                } else {
                    pixel(buf0, pps as int, row, col)
                }) by {
                assert((if p == 32 {
                    w as int
                } else {
                    p * ps
                }) * vw == 0) by (nonlinear_arith)
                    requires
                        p == 0,
                ;
            }
        }
        while p < parts.len()
            invariant
                self.wf(),
                self.same_setup(old(self)),
                self.x == old(self).x,
                self.y == old(self).y,
                w == self.width,
                h == self.height,
                vw == self.font.visual_width,
                vh == self.font.visual_height,
                pps == self.framebuffer.pixels_per_scanline,
                buffer_len == self.framebuffer.buffer@.len(),
                text_len == self.text@.len(),
                t0 == old(self).text@,
                t0.len() == text_len,
                buf0 == old(self).framebuffer.buffer@,
                vw > 0 && vh > 0,
                color == self.background,
                character == EMPTY_CELL,
                text_y < h,
                (text_y + 1) * w <= h * w,
                (text_y + 1) * vh <= h * vh,
                (text_y + 1) * w == text_y * w + w,
                (text_y + 1) * vh == text_y * vh + vh,
                w * h == h * w,
                ps == w / 32,
                32 * ps <= w,
                parts@.len() == 32,
                p <= 32,
                forall|q: int|
                    0 <= q < 32 ==> (#[trigger] parts@[q]).0 == q * ps && parts@[q].1 == ps + (
                    if q == 31 {
                        w - 32 * ps
                    } else {
                        0
                    }),
                forall|i: int|
                    0 <= i < text_len ==> #[trigger] self.text@[i] == (if text_y * w <= i < text_y * w
                        + (if p == 32 {
                        w as int
                    } else {
                        p * ps
                    }) {
                        EMPTY_CELL
                    } else {
                        t0[i]
                    }),
                forall|row: int, col: int|
                    0 <= row && 0 <= col < pps && row * pps + col < buffer_len ==> #[trigger] pixel(
                        self.framebuffer.buffer@,
                        pps as int,
                        row,
                        col,
                    ) == (if text_y * vh <= row < text_y * vh + vh && col < (if p == 32 {
                        w as int
                    } else {
                        p * ps
                    }) * vw {
                        old(self).clear_pixel(buf0, t0, text_y as int, row, col)
                    } else {
                        pixel(buf0, pps as int, row, col)
                    }),
            decreases 32 - p,
        {
            let (text_x, text_size) = parts[p];
            proof {
                assert(p * ps + ps == (p + 1) * ps) by (nonlinear_arith);
                lemma_mul_le(p as int + 1, 32, ps as int);
                assert(32 * ps == ps * 32) by (nonlinear_arith);
                assert(text_x + text_size <= w);
                lemma_mul_le(text_x as int + text_size as int, w as int, vw as int);
                assert(w * vw == vw * w) by (nonlinear_arith);
                assert((text_x + text_size) * vw == text_x * vw + text_size * vw) by (nonlinear_arith);
                assert(text_x + text_size == part_end(w as int, p as int));
            }
            let text_index = text_y * w + text_x;
            let gx = text_x * vw;
            let gsize = text_size * vw;
            let ghost text_before = self.text@;
            proof {
                assert forall|j: int| text_index <= j < text_index + text_size implies #[trigger] text_before[j] == t0[j] by {
                    assert(text_before[j] == (if text_y * w <= j < text_y * w + (if p == 32 {
                        w as int
                    } else {
                        p * ps
                    }) {
                        EMPTY_CELL
                    } else {
                        t0[j]
                    }));
                }
            }
            if range_all(&self.text, text_index, text_size, character) {
                proof {
                    assert forall|row: int, col: int|
                        text_y * vh <= row < text_y * vh + vh && gx <= col < gx + gsize implies #[trigger] old(self).clear_pixel(buf0, t0, text_y as int, row, col) == pixel(buf0, pps as int, row, col) by {
                        lemma_div_between(col, vw as int, text_x as int, text_x + text_size);
                        lemma_part_of(w as int, p as int, col / (vw as int));
                        assert forall|j: int| text_index <= j < text_index + text_size implies t0[j] == EMPTY_CELL by {
                            assert(text_before[j] == t0[j]);
                        }
                    }
                }
            } else {
                proof {
                    let j = choose|j: int| text_index <= j < text_index + text_size && text_before[j] != EMPTY_CELL;
                    assert(t0[j] == text_before[j]);
                    assert forall|row: int, col: int|
                        text_y * vh <= row < text_y * vh + vh && gx <= col < gx + gsize implies #[trigger] old(self).clear_pixel(buf0, t0, text_y as int, row, col) == color by {
                        lemma_div_between(col, vw as int, text_x as int, text_x + text_size);
                        lemma_part_of(w as int, p as int, col / (vw as int));
                    }
                }
                // Clear this text line part.
                fill(&mut self.text, text_index, text_size, character);

                // The text is not clear in this part, so clear every graphics line of it that
                // is not clear.
                let gy_end = (text_y + 1) * vh;
                let mut gy = text_y * vh;
                let ghost text_now = self.text@;
                while gy < gy_end
                    invariant
                        self.same_setup(old(self)),
                        self.text@ == text_now,
                        self.x == old(self).x,
                        self.y == old(self).y,
                        pps == self.framebuffer.pixels_per_scanline,
                        buffer_len == self.framebuffer.buffer@.len(),
                        buf0 == old(self).framebuffer.buffer@,
                        color == self.background,
                        gy_end == (text_y + 1) * vh,
                        gy_end == text_y * vh + vh,
                        gy_end <= h * vh,
                        h * vh <= self.framebuffer.height,
                        self.framebuffer.height * pps <= buffer_len,
                        gx + gsize <= self.framebuffer.width,
                        self.framebuffer.width <= pps,
                        text_y * vh <= gy <= gy_end,
                        forall|row: int, col: int|
                            text_y * vh <= row < text_y * vh + vh && gx <= col < gx + gsize ==> #[trigger] old(self).clear_pixel(buf0, t0, text_y as int, row, col) == color,
                        forall|row: int, col: int|
                            0 <= row && 0 <= col < pps && row * pps + col < buffer_len ==> #[trigger] pixel(
                                self.framebuffer.buffer@,
                                pps as int,
                                row,
                                col,
                            ) == (if text_y * vh <= row < text_y * vh + vh && (col < gx || (gx <= col
                                < gx + gsize && row < gy)) {
                                old(self).clear_pixel(buf0, t0, text_y as int, row, col)
                            } else {
                                pixel(buf0, pps as int, row, col)
                            }),
                    decreases gy_end - gy,
                {
                    proof {
                        lemma_row_index(gy as int, gx as int + gsize as int, self.framebuffer.height as int, pps as int);
                    }
                    let graphics_index = gy * pps + gx;
                    let ghost old_b = self.framebuffer.buffer@;
                    let clear = range_all(&self.framebuffer.buffer, graphics_index, gsize, color);
                    if !clear {
                        fill(&mut self.framebuffer.buffer, graphics_index, gsize, color);
                    }
                    proof {
                        assert forall|row: int, col: int|
                            0 <= row && 0 <= col < pps && row * pps + col < buffer_len implies #[trigger] pixel(
                                self.framebuffer.buffer@,
                                pps as int,
                                row,
                                col,
                            ) == (if text_y * vh <= row < text_y * vh + vh && (col < gx || (gx <= col
                                < gx + gsize && row < gy + 1)) {
                                old(self).clear_pixel(buf0, t0, text_y as int, row, col)
                            } else {
                                pixel(buf0, pps as int, row, col)
                            }) by {
                            lemma_pixel_in_span(row, col, gy as int, gx as int, gsize as int, pps as int);
                            if !(row == gy && gx <= col < gx + gsize) {
                                assert(pixel(old_b, pps as int, row, col) == pixel(self.framebuffer.buffer@, pps as int, row, col));
                            }
                        }
                    }
                    gy += 1;
                }
            }
            proof {
                let done = if p + 1 == 32 { w as int } else { (p + 1) * ps };
                assert(text_x + text_size == done);
                assert forall|i: int| 0 <= i < text_len implies #[trigger] self.text@[i] == (if text_y * w <= i < text_y * w + done {
                    EMPTY_CELL
                } else {
                    t0[i]
                }) by {
                    assert(text_before[i] == (if text_y * w <= i < text_y * w + (if p == 32 {
                        w as int
                    } else {
                        p * ps
                    }) {
                        EMPTY_CELL
                    } else {
                        t0[i]
                    }));
                }
            }
            p += 1;
        }
        proof {
            assert(self.text@ =~= cleared_line(t0, w as int, text_y as int));
            assert forall|i: int| 0 <= i < buffer_len implies self.framebuffer.buffer@[i] == old(self).cleared_pixels(buf0, t0, text_y as int)[i] by {
                vstd::arithmetic::div_mod::lemma_fundamental_div_mod(i, pps as int);
                let row = i / (pps as int);
                let col = i % (pps as int);
                assert(row * pps == pps * row) by (nonlinear_arith);
                assert(0 <= row) by (nonlinear_arith)
                    requires
                        i >= 0,
                        pps > 0,
                        row == i / (pps as int),
                ;
                assert(pixel(self.framebuffer.buffer@, pps as int, row, col) == old(self).clear_pixel(buf0, t0, text_y as int, row, col));
            }
            assert(self.framebuffer.buffer@ =~= old(self).cleared_pixels(buf0, t0, text_y as int));
        }
    }

    /// Pixels `buf` after a new line on text line `y` of text `t`: nothing is redrawn unless
    /// the cursor is on the last line; there the text scrolls up and the last line is cleared.
    pub open spec fn newline_pixels(&self, buf: Seq<u32>, t: Seq<u32>, y: int) -> Seq<u32> {
        if y + 1 < self.height {
            buf
        } else {
            self.cleared_pixels(
                self.scrolled_pixels(buf, t),
                scrolled(t, self.width as int, self.height as int),
                self.height - 1,
            )
        }
    }

    /// Pixels `buf` after writing `ch` at (`x`, `y`) over text `t`: the glyph is drawn into its
    /// cell in the foreground color on the background, then a wrap at the end of the line, like
    /// a line feed, goes through `newline_pixels`. A carriage return draws nothing.
    pub open spec fn char_pixels(&self, buf: Seq<u32>, t: Seq<u32>, x: int, y: int, ch: char) -> Seq<
        u32,
    > {
        if ch == '\r' {
            buf
        } else if ch == '\n' {
            self.newline_pixels(buf, t, y)
        } else {
            let drawn = self.font.drawn(
                buf,
                char_byte(ch) as int,
                x * self.font.visual_width,
                y * self.font.visual_height,
                self.foreground,
                self.background,
                self.framebuffer.pixels_per_scanline as int,
            );
            if x + 1 >= self.width {
                self.newline_pixels(
                    drawn,
                    t.update(x + y * self.width, spec_encode_char(char_byte(ch), self.foreground)),
                    y,
                )
            } else {
                drawn
            }
        }
    }

    /// Pixels `buf` after writing every character of `s` from (`x`, `y`) over text `t`.
    pub open spec fn string_pixels(&self, buf: Seq<u32>, t: Seq<u32>, x: int, y: int, s: Seq<char>) -> Seq<
        u32,
    >
        decreases s.len(),
    {
        if s.len() == 0 {
            buf
        } else {
            let (t1, x1, y1) = put_string(
                t,
                self.width as int,
                self.height as int,
                x,
                y,
                s.drop_last(),
                self.foreground,
            );
            self.char_pixels(self.string_pixels(buf, t, x, y, s.drop_last()), t1, x1, y1, s.last())
        }
    }

    /// Writing `s1` and then `s2` draws the same pixels as writing `s1 + s2` at once.
    pub proof fn lemma_string_pixels_append(
        &self,
        buf: Seq<u32>,
        t: Seq<u32>,
        x: int,
        y: int,
        s1: Seq<char>,
        s2: Seq<char>,
    )
        ensures
            ({
                let (t1, x1, y1) = put_string(
                    t,
                    self.width as int,
                    self.height as int,
                    x,
                    y,
                    s1,
                    self.foreground,
                );
                self.string_pixels(self.string_pixels(buf, t, x, y, s1), t1, x1, y1, s2)
                    == self.string_pixels(buf, t, x, y, s1 + s2)
            }),
        decreases s2.len(),
    {
        let w = self.width as int;
        let h = self.height as int;
        if s2.len() == 0 {
            assert(s1 + s2 =~= s1);
        } else {
            self.lemma_string_pixels_append(buf, t, x, y, s1, s2.drop_last());
            lemma_put_string_append(t, w, h, x, y, s1, s2.drop_last(), self.foreground);
            assert((s1 + s2).drop_last() =~= s1 + s2.drop_last());
            assert((s1 + s2).last() == s2.last());
        }
    }

    /// Consoles set up alike redraw alike.
    proof fn lemma_setup_pixels(a: Self, b: Self, buf: Seq<u32>, t: Seq<u32>, x: int, y: int, ch: char)
        requires
            a.same_setup(&b),
        ensures
            a.scrolled_pixels(buf, t) == b.scrolled_pixels(buf, t),
            a.cleared_pixels(buf, t, y) == b.cleared_pixels(buf, t, y),
            a.newline_pixels(buf, t, y) == b.newline_pixels(buf, t, y),
            a.char_pixels(buf, t, x, y, ch) == b.char_pixels(buf, t, x, y, ch),
    {
        assert(a.scrolled_pixels(buf, t) =~= b.scrolled_pixels(buf, t));
        assert(a.cleared_pixels(buf, t, y) =~= b.cleared_pixels(buf, t, y));
        let s = a.scrolled_pixels(buf, t);
        let st = scrolled(t, a.width as int, a.height as int);
        assert(a.cleared_pixels(s, st, a.height - 1) =~= b.cleared_pixels(s, st, a.height - 1));
        let drawn = a.font.drawn(
            buf,
            char_byte(ch) as int,
            x * a.font.visual_width,
            y * a.font.visual_height,
            a.foreground,
            a.background,
            a.framebuffer.pixels_per_scanline as int,
        );
        let t1 = t.update(x + y * a.width, spec_encode_char(char_byte(ch), a.foreground));
        let s1 = a.scrolled_pixels(drawn, t1);
        let st1 = scrolled(t1, a.width as int, a.height as int);
        assert(a.scrolled_pixels(drawn, t1) =~= b.scrolled_pixels(drawn, t1));
        assert(a.cleared_pixels(s1, st1, a.height - 1) =~= b.cleared_pixels(s1, st1, a.height - 1));
    }

    /// Go to the start of the next line; at the bottom the text scrolls up one line and the
    /// last line is cleared.
    pub fn newline(&mut self)
        requires
            old(self).wf(),
        ensures
            final(self).wf(),
            final(self).same_setup(old(self)),
            final(self).x == 0,
            (final(self).text@, final(self).y as int) == newline_text(
                old(self).text@,
                old(self).width as int,
                old(self).height as int,
                old(self).y as int,
            ),
            final(self).framebuffer.buffer@ == old(self).newline_pixels(
                old(self).framebuffer.buffer@,
                old(self).text@,
                old(self).y as int,
            ),
    {
        // Go to the new line.
        self.x = 0;
        let next_y = self.y + 1;
        if next_y >= self.height {
            // We are out of vertical space and we need to scroll and clear last line.
            let ghost s0 = *self;
            self.scroll();
            let ghost s1 = *self;
            let last = self.height - 1;
            self.clear_line(last);
            proof {
                Self::lemma_setup_pixels(s0, *old(self), old(self).framebuffer.buffer@, old(self).text@, 0, 0, ' ');
                Self::lemma_setup_pixels(s1, *old(self), s1.framebuffer.buffer@, s1.text@, 0, last as int, ' ');
            }

            // Move cursor one line up.
            self.y = last;
        } else {
            self.y = next_y;
        }
    }

    /// Write `ch` at the cursor: `\r` returns to the start of the line, `\n` goes to the next
    /// line, characters outside ASCII are written as `?`. The cursor wraps at the end of the
    /// line.
    pub fn write_char(&mut self, ch: char)
        requires
            old(self).wf(),
        ensures
            final(self).wf(),
            final(self).same_setup(old(self)),
            (final(self).text@, final(self).x as int, final(self).y as int) == put_char(
                old(self).text@,
                old(self).width as int,
                old(self).height as int,
                old(self).x as int,
                old(self).y as int,
                ch,
                old(self).foreground,
            ),
            final(self).framebuffer.buffer@ == old(self).char_pixels(
                old(self).framebuffer.buffer@,
                old(self).text@,
                old(self).x as int,
                old(self).y as int,
                ch,
            ),
    {
        // Handle special characters.
        if ch == '\r' {
            self.x = 0;
            return;
        }
        if ch == '\n' {
            self.newline();
            return;
        }

        // Convert character to ASCII. Use '?' when conversion is impossible.
        let byte: u8 = if (ch as u32) < 128 {
            ch as u8
        } else {
            63
        };

        // Update colored character that we are drawing now.
        let character = Self::encode_colored_character(byte, self.foreground);
        let text_len = self.text.len();
        proof {
            lemma_row_index(self.y as int, self.x as int + 1, self.height as int, self.width as int);
            assert(self.y * self.width == self.width * self.y) by (nonlinear_arith);
            assert(self.width * self.height == self.height * self.width) by (nonlinear_arith);
            lemma_mul_le(self.x as int + 1, self.width as int, self.font.visual_width as int);
            lemma_mul_le(self.y as int + 1, self.height as int, self.font.visual_height as int);
            assert((self.x + 1) * self.font.visual_width == self.x * self.font.visual_width + self.font.visual_width) by (nonlinear_arith);
            assert((self.y + 1) * self.font.visual_height == self.y * self.font.visual_height + self.font.visual_height) by (nonlinear_arith);
            assert(self.width * self.font.visual_width == self.font.visual_width * self.width) by (nonlinear_arith);
            assert(self.height * self.font.visual_height == self.font.visual_height * self.height) by (nonlinear_arith);
        }
        let index = self.x + self.y * self.width;
        self.text.set(index, character);

        // Draw the character.
        let x = self.x * self.font.visual_width;
        let y = self.y * self.font.visual_height;
        self.font.draw(
            byte,
            x,
            y,
            self.foreground,
            self.background,
            &mut self.line_buffer,
            &mut self.framebuffer,
        );

        // Move cursor one position to the right, wrapping the text.
        let next_x = self.x + 1;
        if next_x >= self.width {
            let ghost s1 = *self;
            self.newline();
            proof {
                Self::lemma_setup_pixels(s1, *old(self), s1.framebuffer.buffer@, s1.text@, 0, s1.y as int, ' ');
            }
        } else {
            self.x = next_x;
        }
    }

    /// Write every character of `string`.
    pub fn write_string(&mut self, string: &str)
        requires
            old(self).wf(),
        ensures
            final(self).wf(),
            final(self).same_setup(old(self)),
            (final(self).text@, final(self).x as int, final(self).y as int) == put_string(
                old(self).text@,
                old(self).width as int,
                old(self).height as int,
                old(self).x as int,
                old(self).y as int,
                string@,
                old(self).foreground,
            ),
            final(self).framebuffer.buffer@ == old(self).string_pixels(
                old(self).framebuffer.buffer@,
                old(self).text@,
                old(self).x as int,
                old(self).y as int,
                string@,
            ),
    {
        let n = string.unicode_len();
        let mut i: usize = 0;
        while i < n
            invariant
                self.wf(),
                self.same_setup(old(self)),
                n == string@.len(),
                i <= n,
                (self.text@, self.x as int, self.y as int) == put_string(
                    old(self).text@,
                    old(self).width as int,
                    old(self).height as int,
                    old(self).x as int,
                    old(self).y as int,
                    string@.subrange(0, i as int),
                    old(self).foreground,
                ),
                self.framebuffer.buffer@ == old(self).string_pixels(
                    old(self).framebuffer.buffer@,
                    old(self).text@,
                    old(self).x as int,
                    old(self).y as int,
                    string@.subrange(0, i as int),
                ),
            decreases n - i,
        {
            let ch = string.get_char(i);
            proof {
                let prefix = string@.subrange(0, i as int + 1);
                assert(prefix.drop_last() =~= string@.subrange(0, i as int));
                assert(prefix.last() == ch);
            }
            let ghost s1 = *self;
            self.write_char(ch);
            proof {
                Self::lemma_setup_pixels(s1, *old(self), s1.framebuffer.buffer@, s1.text@, s1.x as int, s1.y as int, ch);
            }
            i += 1;
        }
        proof {
            assert(string@.subrange(0, n as int) =~= string@);
        }
    }

    /// Go back to the default foreground color.
    pub fn reset_color(&mut self)
        ensures
            *final(self) == (Self { foreground: old(self).default_foreground, ..*old(self) }),
    {
        self.foreground = self.default_foreground;
    }

    /// Draw following characters in RGB `color`.
    pub fn set_color(&mut self, color: u32)
        requires
            old(self).wf(),
            color & 0xff00_0000 == 0,
        ensures
            final(self).wf(),
            *final(self) == (Self {
                foreground: if color == DEFAULT_FOREGROUND_COLOR {
                    old(self).default_foreground
                } else {
                    spec_convert_color(old(self).framebuffer.color_mode, color)
                },
                ..*old(self)
            }),
    {
        if color == DEFAULT_FOREGROUND_COLOR {
            self.reset_color();
        } else {
            self.foreground = self.framebuffer.convert_color(color);
            proof {
                lemma_color_bits(color);
            }
        }
    }
}

} // verus!
