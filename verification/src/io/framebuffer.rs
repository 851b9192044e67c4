use vstd::prelude::*;

use vstd::string::StringSliceAdditionalSpecFns;

use crate::io::psf::{
    bitmasks, expanded_bits, expanded_str, lemma_expanded_bits_empty, row_bytes, stride_of,
    glyph_slot, Glyph, Psf,
};
use crate::memory::round_up;

verus! {

/// A linear framebuffer of 32-bit pixels and the text cursor on it.
pub struct Framebuffer {
    pub address: u64,
    pub pitch: usize,
    pub width: usize,
    pub height: usize,
    pub size: usize,
    pub fg_color: u32,
    pub bg_color: u32,
    pub font: Option<Psf>,
    /// not pixel positions, its character positions
    pub cursor_pos: (usize, usize),
}

/// The bitmasks of the glyphs of the bytes of `s`.
pub open spec fn text_bits(font: Psf, s: Seq<u8>) -> Seq<Seq<u8>> {
    Seq::new(s.len(), |i: int| font.glyph_bits(s[i] as u32))
}

/// The pixels of the text `s` drawn in `font` with the colours of `fb`.
pub open spec fn text_pixels(fb: Framebuffer, font: Psf, s: Seq<u8>) -> Seq<u32> {
    expanded_bits(
        text_bits(font, s),
        font.header.spec_glyph_width() as int,
        font.header.spec_glyph_height() as int,
        fb.fg_color,
        fb.bg_color,
    )
}

/// Index of the first pixel of the text at the cursor: the cursor's column
/// times the glyph width, plus the cursor's row times the glyph height times
/// the pitch counted in 32-bit pixels.
pub open spec fn text_start(fb: Framebuffer, font: Psf) -> int {
    fb.cursor_pos.0 * font.header.spec_glyph_width() + font.header.spec_glyph_height() * (fb.pitch
        / 4) * fb.cursor_pos.1
}

/// Index of the `i`-th pixel of a text of `count` glyphs: it lies in row
/// `i / (width * count)` of the text, one pitch (counted in 32-bit pixels)
/// per row.
pub open spec fn text_pixel_index(fb: Framebuffer, font: Psf, count: int, i: int) -> int {
    let line = font.header.spec_glyph_width() * count;
    (i / line) * (fb.pitch / 4) + i % line + text_start(fb, font)
}

/// The font can draw `s` and every pixel index of the text fits in a `usize`.
pub open spec fn text_fits(fb: Framebuffer, font: Psf, s: Seq<u8>) -> bool {
    let w = font.header.spec_glyph_width() as int;
    let h = font.header.spec_glyph_height() as int;
    let px = text_pixels(fb, font, s);
    &&& forall|i: int| 0 <= i < s.len() ==> #[trigger] font.holds_slot(glyph_slot(s[i] as u32))
    &&& round_up(w, 8) <= usize::MAX
    &&& h * row_bytes(w) <= usize::MAX
    &&& h * row_bytes(w) <= stride_of(font.header)
    &&& w * s.len() <= usize::MAX
    &&& fb.cursor_pos.0 * w <= usize::MAX
    &&& h * (fb.pitch / 4) <= usize::MAX
    &&& h * (fb.pitch / 4) * fb.cursor_pos.1 <= usize::MAX
    &&& text_start(fb, font) <= usize::MAX
    &&& fb.cursor_pos.0 + s.len() <= usize::MAX
    &&& forall|i: int| 0 <= i < px.len() ==> #[trigger] text_pixel_index(fb, font, s.len() as int, i) <= usize::MAX
}

impl Framebuffer {
    /// A framebuffer at `address`, `width` by `height` pixels, `pitch` bytes
    /// per row; white on black, no font, cursor at the top left.
    pub fn new(address: u64, width: usize, height: usize, pitch: usize) -> (r: Self)
        requires
            pitch * height <= usize::MAX,
        ensures
            r.address == address,
            r.pitch == pitch,
            r.width == width,
            r.height == height,
            r.size == pitch * height,
            r.font is None,
            r.fg_color == u32::MAX,
            r.bg_color == 0,
            r.cursor_pos == (0usize, 0usize),
    {
        Self {
            address,
            pitch,
            width,
            height,
            size: pitch * height,
            font: None,
            fg_color: u32::MAX,
            bg_color: 0,
            cursor_pos: (0, 0),
        }
    }

    /// Draws text with `font` from now on; returns the font used before.
    pub fn set_font(&mut self, font: Psf) -> (r: Option<Psf>)
        ensures
            r == old(self).font,
            final(self).font == Some(font),
            final(self).cursor_pos == old(self).cursor_pos,
            final(self).pitch == old(self).pitch,
            final(self).size == old(self).size,
            final(self).address == old(self).address,
            final(self).fg_color == old(self).fg_color,
            final(self).bg_color == old(self).bg_color,
    {
        let old_font = self.font.take();
        self.font = Some(font);
        old_font
    }

    /// Moves the cursor to column `x`.
    pub fn set_cursor_x(&mut self, x: usize)
        ensures
            *final(self) == (Framebuffer { cursor_pos: (x, old(self).cursor_pos.1), ..*old(self) }),
    {
        self.cursor_pos.0 = x
    }

    /// Moves the cursor to row `y`.
    pub fn set_cursor_y(&mut self, y: usize)
        ensures
            *final(self) == (Framebuffer { cursor_pos: (old(self).cursor_pos.0, y), ..*old(self) }),
    {
        self.cursor_pos.1 = y
    }

    /// Moves the cursor to `pos`, a (column, row) pair.
    pub fn set_cursor_pos(&mut self, pos: (usize, usize))
        ensures
            *final(self) == (Framebuffer { cursor_pos: pos, ..*old(self) }),
    {
        self.cursor_pos = pos
    }

    /// Draws `s` at the cursor: returns the pixels to store, as (index of a
    /// 32-bit pixel, colour), and moves the cursor on by the length of `s`.
    /// Refused without a font or when `s` is not all ASCII.
    pub fn write_str(&mut self, s: &str) -> (r: Option<Vec<(usize, u32)>>)
        requires
            old(self).font matches Some(f) ==> (vstd::string::is_ascii(s) ==> text_fits(
                *old(self),
                f,
                s.spec_bytes(),
            )),
        ensures
            old(self).font is None ==> r is None && *final(self) == *old(self),
            old(self).font is Some ==> ({
                let f = old(self).font->0;
                let t = s.spec_bytes();
                if !vstd::string::is_ascii(s) {
                    r is None && *final(self) == *old(self)
                } else {
                    let px = text_pixels(*old(self), f, t);
                    &&& r matches Some(w) && w@ == Seq::new(
                        px.len(),
                        |i: int| (text_pixel_index(*old(self), f, t.len() as int, i) as usize, px[i]),
                    )
                    &&& *final(self) == (Framebuffer {
                        cursor_pos: ((old(self).cursor_pos.0 + t.len()) as usize, old(
                            self,
                        ).cursor_pos.1),
                        ..*old(self)
                    })
                }
            }),
    {
        let font = match &self.font {
            Some(f) => f,
            None => {
                return None;
            },
        };
        let glyphs = match font.glyphs(s) {
            Ok(g) => g,
            Err(_) => {
                return None;
            },
        };
        let ghost t = s.spec_bytes();
        let ghost px = text_pixels(*self, *font, t);
        proof {
            assert(bitmasks(glyphs@) =~= text_bits(*font, t));
            if glyphs@.len() > 0 {
                assert(glyphs@[0].width == font.header.spec_glyph_width());
                let st = stride_of(font.header) as int;
                assert forall|c: int| 0 <= c < glyphs@.len() implies glyphs@[0].height * row_bytes(
                    glyphs@[0].width as int,
                ) <= (#[trigger] glyphs@[c]).bitmask@.len() by {
                    let slot = glyph_slot(t[c] as u32);
                    assert(font.holds_slot(slot));
                    assert((slot + 1) * st == slot * st + st) by (nonlinear_arith);
                    assert(0 <= slot * st) by (nonlinear_arith)
                        requires
                            0 <= slot,
                            0 <= st,
                    ;
                    assert(glyphs@[c].bitmask@.len() == st);
                }
            }
        }
        let bytes = Glyph::expand_str(glyphs.as_slice(), self.fg_color, self.bg_color);
        assert(bytes@ == px);
        let glyph_count = s.len();
        let glyph_width = font.width();
        let glyph_height = font.height();
        let start_pos = self.cursor_pos.0 * glyph_width + glyph_height * (self.pitch / 4)
            * self.cursor_pos.1;
        let line = glyph_width * glyph_count;
        let mut writes: Vec<(usize, u32)> = Vec::new();
        if line == 0 {
            proof {
                assert(glyph_width == 0 || glyph_count == 0) by (nonlinear_arith)
                    requires
                        line == glyph_width * glyph_count,
                        line == 0,
                ;
                if glyph_count == 0 {
                    assert(text_bits(*font, t).len() == 0);
                }
                if glyph_width == 0 {
                    lemma_expanded_bits_empty(
                        text_bits(*font, t),
                        glyph_height as int,
                        self.fg_color,
                        self.bg_color,
                    );
                }
                assert(px.len() == 0);
                assert(writes@ =~= Seq::new(
                    px.len(),
                    |i: int| (text_pixel_index(*self, *font, t.len() as int, i) as usize, px[i]),
                ));
            }
        } else {
            let mut i: usize = 0;
            while i < bytes.len()
                invariant
                    0 <= i <= bytes@.len(),
                    bytes@ == px,
                    line == glyph_width * glyph_count,
                    line > 0,
                    t.len() == glyph_count,
                    glyph_width == font.header.spec_glyph_width(),
                    start_pos == text_start(*self, *font),
                    forall|k: int| 0 <= k < px.len() ==> #[trigger] text_pixel_index(*self, *font, t.len() as int, k) <= usize::MAX,
                    writes@ == Seq::new(
                        i as nat,
                        |k: int| (text_pixel_index(*self, *font, t.len() as int, k) as usize, px[k]),
                    ),
                decreases bytes@.len() - i,
            {
                let row = i / line;
                let col = i % line;
                proof {
                    assert(text_pixel_index(*self, *font, t.len() as int, i as int) <= usize::MAX);
                    assert(row * (self.pitch / 4) <= text_pixel_index(*self, *font, t.len() as int, i as int));
                }
                let pos = row * (self.pitch / 4) + col;
                writes.push((pos + start_pos, bytes[i]));
                proof {
                    assert(writes@ =~= Seq::new(
                        (i + 1) as nat,
                        |k: int| (text_pixel_index(*self, *font, t.len() as int, k) as usize, px[k]),
                    ));
                }
                i = i + 1;
            }
        }
        self.cursor_pos.0 = self.cursor_pos.0 + glyph_count;
        Some(writes)
    }
}

} // verus!
