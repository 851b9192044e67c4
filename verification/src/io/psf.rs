use vstd::prelude::*;

use vstd::string::StringSliceAdditionalSpecFns;

use crate::memory::{lemma_round_up, next_multiple_of_usize, round_up};

verus! {

/// Header of a version 1 PC Screen Font.
#[derive(Clone, Copy, Debug)]
pub struct Psf1 {
    /// Hex: `36 04`
    pub _magic: [u8; 2],
    /// # [See font modes](https://en.wikipedia.org/wiki/PC_Screen_Font#Font_modes)
    pub modes: u8,
    /// glyph height
    pub glyph_size: u8,
}

/// Header of a version 2 PC Screen Font.
#[derive(Clone, Copy, Debug)]
pub struct Psf2 {
    /// Hex: `72 b5 4a 86`
    pub _magic: [u8; 4],
    /// Always 0
    pub _version: u32,
    pub header_size: u32,
    /// # [See flags](https://en.wikipedia.org/wiki/PC_Screen_Font#Font_flags)
    pub flags: u32,
    /// Number of glyphs
    pub length: u32,
    /// height of glyphs
    pub height: u32,
    /// size of glyph in bytes
    pub glyph_size: u32,
    /// width of glyphs,
    pub width: u32,
}

/// Why a font or glyph could not be had.
#[derive(Debug, Clone, Copy, PartialEq, Eq, Structural)]
pub enum PsfError {
    InvalidHeader,
    InvalidGlyph,
}

/// The header of a font, of either version.
#[derive(Clone, Copy, Debug)]
pub enum PsfHeader {
    Psf1(Psf1),
    Psf2(Psf2),
}

/// Size in bytes of a version 1 header.
pub const PSF1_HEADER_SIZE: usize = 4;

/// Size in bytes of a version 2 header.
pub const PSF2_HEADER_SIZE: usize = 32;

/// Whether `s` starts with the version 1 magic, `36 04`.
pub open spec fn psf1_magic(s: Seq<u8>) -> bool {
    s[0] == 0x36 && s[1] == 0x04
}

/// Whether `s` starts with the version 2 magic,
/// `72 b5 4a 86`.
pub open spec fn psf2_magic(s: Seq<u8>) -> bool {
    s[0] == 0x72 && s[1] == 0xb5 && s[2] == 0x4a && s[3] == 0x86
}

/// Little-endian value of the four bytes of `s` from `off`.
pub open spec fn le_u32(s: Seq<u8>, off: int) -> u32 {
    vstd::bytes::spec_u32_from_le_bytes(s.subrange(off, off + 4))
}

/// The header held at the start of `s`, if it has either magic.
pub open spec fn header_of(s: Seq<u8>) -> Option<PsfHeader> {
    if psf1_magic(s) {
        Some(
            PsfHeader::Psf1(
                Psf1 { _magic: [s[0], s[1]], modes: s[2], glyph_size: s[3] },
            ),
        )
    } else if psf2_magic(s) {
        Some(
            PsfHeader::Psf2(
                Psf2 {
                    _magic: [s[0], s[1], s[2], s[3]],
                    _version: le_u32(s, 4),
                    header_size: le_u32(s, 8),
                    flags: le_u32(s, 12),
                    length: le_u32(s, 16),
                    height: le_u32(s, 20),
                    glyph_size: le_u32(s, 24),
                    width: le_u32(s, 28),
                },
            ),
        )
    } else {
        None
    }
}

/// `s` is long enough for the header its magic announces.
pub open spec fn header_fits(s: Seq<u8>) -> bool {
    &&& s.len() >= 4
    &&& !psf1_magic(s) && psf2_magic(s) ==> s.len() >= 32
}

/// The little-endian 32-bit value of the four bytes of `bytes` from `off`.
pub(crate) fn read_u32(bytes: &[u8], off: usize) -> (r: u32)
    requires
        off + 4 <= bytes@.len(),
    ensures
        r == le_u32(bytes@, off as int),
{
    let _len = bytes.len();
    let part = vstd::slice::slice_subrange(bytes, off, off + 4);
    vstd::bytes::u32_from_le_bytes(part)
}

impl PsfHeader {
    /// Whether `data` starts with the version 1 magic.
    pub fn is_psf1(data: &[u8]) -> (r: bool)
        requires
            data@.len() >= 2,
        ensures
            r == psf1_magic(data@),
    {
        data[0] == 0x36 && data[1] == 0x04
    }

    /// Whether `data` starts with the version 2 magic.
    pub fn is_psf2(data: &[u8]) -> (r: bool)
        requires
            data@.len() >= 4,
        ensures
            r == psf2_magic(data@),
    {
        data[0] == 0x72 && data[1] == 0xb5 && data[2] == 0x4a && data[3] == 0x86
    }

    /// Reads the header at the start of `data`.
    pub fn parse(data: &[u8]) -> (r: Result<Self, PsfError>)
        requires
            header_fits(data@),
        ensures
            header_of(data@) matches Some(h) ==> r == Ok::<PsfHeader, PsfError>(h),
            header_of(data@) is None ==> r == Err::<PsfHeader, PsfError>(PsfError::InvalidHeader),
    {
        if Self::is_psf1(data) {
            Ok(PsfHeader::Psf1(Psf1 { _magic: [data[0], data[1]], modes: data[2], glyph_size: data[3] }))
        } else if Self::is_psf2(data) {
            Ok(
                PsfHeader::Psf2(
                    Psf2 {
                        _magic: [data[0], data[1], data[2], data[3]],
                        _version: read_u32(data, 4),
                        header_size: read_u32(data, 8),
                        flags: read_u32(data, 12),
                        length: read_u32(data, 16),
                        height: read_u32(data, 20),
                        glyph_size: read_u32(data, 24),
                        width: read_u32(data, 28),
                    },
                ),
            )
        } else {
            Err(PsfError::InvalidHeader)
        }
    }

    /// Width of a glyph in pixels: always 8 in version 1.
    pub open spec fn spec_glyph_width(&self) -> usize {
        match self {
            PsfHeader::Psf1(_) => 8,
            PsfHeader::Psf2(p) => p.width as usize,
        }
    }

    /// Height of a glyph in pixels.
    pub open spec fn spec_glyph_height(&self) -> usize {
        match self {
            PsfHeader::Psf1(p) => p.glyph_size as usize,
            PsfHeader::Psf2(p) => p.height as usize,
        }
    }

    /// Width of a glyph in pixels: always 8 in version 1.
    pub fn glyph_width(&self) -> (r: usize)
        ensures
            r == self.spec_glyph_width(),
    {
        match self {
            PsfHeader::Psf1(_) => 8,
            PsfHeader::Psf2(psf2) => psf2.width as usize,
        }
    }

    /// Height of a glyph in pixels.
    pub fn glyph_height(&self) -> (r: usize)
        ensures
            r == self.spec_glyph_height(),
    {
        match self {
            PsfHeader::Psf1(psf1) => psf1.glyph_size as usize,
            PsfHeader::Psf2(psf2) => psf2.height as usize,
        }
    }

    /// Width and height of a glyph in pixels.
    pub fn glyph_dimensions(&self) -> (r: (usize, usize))
        ensures
            r == (self.spec_glyph_width(), self.spec_glyph_height()),
    {
        (self.glyph_width(), self.glyph_height())
    }
}

/// The colour of the pixel for bit `bit` of `byte`: `fg` when set.
pub open spec fn bit_pixel(byte: u8, bit: int, fg: u32, bg: u32) -> u32 {
    if (byte >> (bit as u8)) & 1u8 == 1u8 {
        fg
    } else {
        bg
    }
}

/// Bytes of one row of a glyph `width` pixels wide.
pub open spec fn row_bytes(width: int) -> int {
    round_up(width, 8) / 8
}

/// The pixels of one row of a glyph: pixel `x` is bit `(width - x - 1) % 8`
/// of byte `(width - x - 1) / 8` of the row.
pub open spec fn expanded_row(row: Seq<u8>, width: int, fg: u32, bg: u32) -> Seq<u32> {
    Seq::new(
        width as nat,
        |x: int| bit_pixel(row[(width - x - 1) / 8], (width - x - 1) % 8, fg, bg),
    )
}

/// The pixels of a glyph, row after row.
pub open spec fn expanded(bitmask: Seq<u8>, width: int, fg: u32, bg: u32) -> Seq<u32> {
    let rs = row_bytes(width);
    Seq::new(
        (bitmask.len() as int / rs) as nat,
        |r: int| expanded_row(bitmask.subrange(r * rs, r * rs + rs), width, fg, bg),
    ).flatten()
}

/// The eight pixels of a byte, its highest bit first.
pub open spec fn bits8(byte: u8, fg: u32, bg: u32) -> Seq<u32> {
    Seq::new(8, |i: int| bit_pixel(byte, 7 - i, fg, bg))
}

/// The pixels of `rs` bytes of a glyph's bitmask from `start`.
pub open spec fn glyph_row(bits: Seq<u8>, start: int, rs: int, fg: u32, bg: u32) -> Seq<u32> {
    Seq::new(rs as nat, |k: int| bits8(bits[start + k], fg, bg)).flatten()
}

/// One row of a line of glyphs: row `row` of each glyph's bitmask in turn.
pub open spec fn str_row(bits: Seq<Seq<u8>>, row: int, rs: int, fg: u32, bg: u32) -> Seq<u32> {
    Seq::new(bits.len(), |c: int| glyph_row(bits[c], row * rs, rs, fg, bg)).flatten()
}

/// The pixels of a line of glyphs given by their bitmasks, all `width` by
/// `height` pixels: row after row, every byte giving eight pixels.
pub open spec fn expanded_bits(bits: Seq<Seq<u8>>, width: int, height: int, fg: u32, bg: u32) -> Seq<
    u32,
> {
    if bits.len() == 0 {
        seq![]
    } else {
        let rs = row_bytes(width);
        Seq::new(height as nat, |row: int| str_row(bits, row, rs, fg, bg)).flatten()
    }
}

/// The bitmasks of some glyphs.
pub open spec fn bitmasks(glyphs: Seq<Glyph>) -> Seq<Seq<u8>> {
    glyphs.map_values(|g: Glyph| g.bitmask@)
}

/// The pixels of a line of glyphs; the height and row size are the first
/// glyph's.
pub open spec fn expanded_str(glyphs: Seq<Glyph>, fg: u32, bg: u32) -> Seq<u32> {
    if glyphs.len() == 0 {
        seq![]
    } else {
        expanded_bits(bitmasks(glyphs), glyphs[0].width as int, glyphs[0].height as int, fg, bg)
    }
}

/// No pixels come out of glyphs zero pixels wide.
pub proof fn lemma_expanded_bits_empty(bits: Seq<Seq<u8>>, height: int, fg: u32, bg: u32)
    requires
        height >= 0,
    ensures
        expanded_bits(bits, 0, height, fg, bg) == Seq::<u32>::empty(),
{
    if bits.len() > 0 {
        let rs = row_bytes(0);
        assert(rs == 0);
        assert forall|c: int| 0 <= c < bits.len() implies glyph_row(bits[c], 0, rs, fg, bg)
            == Seq::<u32>::empty() by {
            assert(Seq::new(0nat, |k: int| bits8(bits[c][k], fg, bg)) =~= Seq::<Seq<u32>>::empty());
        }
        assert forall|row: int| 0 <= row < height implies str_row(bits, row, rs, fg, bg)
            == Seq::<u32>::empty() by {
            assert forall|c: int| 0 <= c < bits.len() implies glyph_row(bits[c], row * rs, rs, fg, bg)
                == Seq::<u32>::empty() by {
                assert(Seq::new(0nat, |k: int| bits8(bits[c][row * rs + k], fg, bg)) =~= Seq::<
                    Seq<u32>,
                >::empty());
            }
            lemma_flatten_all_empty(
                Seq::new(bits.len(), |c: int| glyph_row(bits[c], row * rs, rs, fg, bg)),
            );
        }
        let s2 = Seq::new(height as nat, |row: int| str_row(bits, row, rs, fg, bg));
        assert forall|i: int| 0 <= i < s2.len() implies s2[i] == Seq::<u32>::empty() by {
            assert(s2[i] == str_row(bits, i, rs, fg, bg));
            assert(0 <= i < height);
            assert(str_row(bits, i, rs, fg, bg) == Seq::<u32>::empty());
        }
        lemma_flatten_all_empty(s2);
        assert(expanded_bits(bits, 0, height, fg, bg) == s2.flatten());
    }
}

/// Flattening sequences that are all empty gives the empty sequence.
pub proof fn lemma_flatten_all_empty<A>(s: Seq<Seq<A>>)
    ensures
        (forall|i: int| 0 <= i < s.len() ==> s[i] == Seq::<A>::empty()) ==> s.flatten()
            == Seq::<A>::empty(),
    decreases s.len(),
{
    if s.len() > 0 && forall|i: int| 0 <= i < s.len() ==> s[i] == Seq::<A>::empty() {
        let t = s.drop_last();
        assert forall|i: int| 0 <= i < t.len() implies t[i] == Seq::<A>::empty() by {
            assert(t[i] == s[i]);
        }
        lemma_flatten_all_empty(t);
        assert(t.push(s.last()) =~= s);
        t.lemma_flatten_push(s.last());
        assert(s.last() == Seq::<A>::empty());
        assert(t.flatten() + s.last() =~= Seq::<A>::empty());
    }
}

proof fn lemma_row_bounds(r: int, rs: int, n: int)
    requires
        0 <= r < n,
        rs >= 0,
    ensures
        0 <= r * rs,
        r * rs + rs <= n * rs,
{
    assert(0 <= r * rs) by (nonlinear_arith)
        requires
            0 <= r,
            rs >= 0,
    ;
    assert(r * rs + rs <= n * rs) by (nonlinear_arith)
        requires
            r < n,
            rs >= 0,
    ;
}

impl Glyph {
    /// Expands self into a RGB color array,
    #[verifier::loop_isolation(false)]
    pub fn expand(&self, fg_color: u32, bg_color: u32) -> (r: Vec<u32>)
        requires
            self.width >= 1,
            round_up(self.width as int, 8) <= usize::MAX,
            self.bitmask@.len() as int % row_bytes(self.width as int) == 0,
        ensures
            r@ == expanded(self.bitmask@, self.width as int, fg_color, bg_color),
    {
        proof {
            lemma_round_up(self.width as int, 8);
        }
        let row_stride = next_multiple_of_usize(self.width, 8) / 8;
        let width = self.width;
        let n = self.bitmask.len();
        let rows = n / row_stride;
        proof {
            vstd::arithmetic::div_mod::lemma_fundamental_div_mod(n as int, row_stride as int);
            assert(rows * row_stride == n) by (nonlinear_arith)
                requires
                    n == row_stride * (n / row_stride) + n % row_stride,
                    n % row_stride == 0,
                    rows == n / row_stride,
            ;
        }
        let ghost bm = self.bitmask@;
        let ghost rowf = |r: int|
            expanded_row(
                bm.subrange(r * row_stride, r * row_stride + row_stride),
                width as int,
                fg_color,
                bg_color,
            );
        let mut out: Vec<u32> = Vec::new();
        let mut r: usize = 0;
        while r < rows
            invariant
                0 <= r <= rows,
                rows * row_stride == n,
                n == bm.len(),
                bm == self.bitmask@,
                width == self.width,
                width >= 1,
                row_stride == row_bytes(width as int),
                row_stride * 8 >= width,
                row_stride > 0,
                rows == bm.len() as int / row_bytes(width as int),
                out@ == Seq::new(r as nat, rowf).flatten(),
            decreases rows - r,
        {
            proof {
                lemma_row_bounds(r as int, row_stride as int, rows as int);
            }
            let start = r * row_stride;
            let ghost row = bm.subrange(start as int, start + row_stride);
            let ghost before = out@;
            let mut x: usize = 0;
            while x < width
                invariant
                    0 <= x <= width,
                    width == self.width,
                    bm == self.bitmask@,
                    start + row_stride <= bm.len(),
                    n == bm.len(),
                    row_stride * 8 >= width,
                    row == bm.subrange(start as int, start + row_stride),
                    out@ == before + expanded_row(row, width as int, fg_color, bg_color).subrange(
                        0,
                        x as int,
                    ),
                decreases width - x,
            {
                let actual = width - x - 1;
                assert(actual / 8 < row_stride);
                let byte = self.bitmask[start + actual / 8];
                let on = (byte >> ((actual % 8) as u8)) & 0x1 == 1;
                if on {
                    out.push(fg_color);
                } else {
                    out.push(bg_color);
                }
                proof {
                    assert(row[(actual / 8) as int] == byte);
                    assert(out@ =~= before + expanded_row(
                        row,
                        width as int,
                        fg_color,
                        bg_color,
                    ).subrange(0, x + 1));
                }
                x = x + 1;
            }
            proof {
                assert(rowf(r as int) == expanded_row(row, width as int, fg_color, bg_color));
                assert(expanded_row(row, width as int, fg_color, bg_color).subrange(0, width as int)
                    =~= rowf(r as int));
                assert(Seq::new((r + 1) as nat, rowf) =~= Seq::new(r as nat, rowf).push(
                    rowf(r as int),
                ));
                Seq::new(r as nat, rowf).lemma_flatten_push(rowf(r as int));
            }
            r = r + 1;
        }
        proof {
            assert(Seq::new(rows as nat, rowf) =~= Seq::new(
                (bm.len() as int / row_bytes(width as int)) as nat,
                |r: int|
                    expanded_row(
                        bm.subrange(
                            r * row_bytes(width as int),
                            r * row_bytes(width as int) + row_bytes(width as int),
                        ),
                        width as int,
                        fg_color,
                        bg_color,
                    ),
            ));
        }
        out
    }

    /// The eight pixels of `bitmask`, its highest bit first.
    fn expand_bitmask(bitmask: u8, fg_color: u32, bg_color: u32) -> (r: Vec<u32>)
        ensures
            r@ == bits8(bitmask, fg_color, bg_color),
    {
        let mut res = vec![bg_color; 8];
        let mut i: usize = 0;
        while i < 8
            invariant
                0 <= i <= 8,
                res@.len() == 8,
                forall|j: int| 0 <= j < i ==> res@[j] == bit_pixel(bitmask, 7 - j, fg_color, bg_color),
                forall|j: int| i <= j < 8 ==> res@[j] == bg_color,
            decreases 8 - i,
        {
            let on = (bitmask >> ((8 - i - 1) as u8)) & 0x1 == 1;
            if on {
                res.set(i, fg_color);
            }
            i = i + 1;
        }
        assert(res@ =~= bits8(bitmask, fg_color, bg_color));
        res
    }

    /// The pixels of a line of glyphs: for each row of the first glyph's
    /// height, that row of every glyph in turn, eight pixels per byte.
    #[verifier::loop_isolation(false)]
    pub fn expand_str(glyphs: &[Self], fg_color: u32, bg_color: u32) -> (r: Vec<u32>)
        requires
            glyphs@.len() > 0 ==> {
                let rs = row_bytes(glyphs@[0].width as int);
                &&& round_up(glyphs@[0].width as int, 8) <= usize::MAX
                &&& glyphs@[0].height * rs <= usize::MAX
                &&& forall|c: int|
                    0 <= c < glyphs@.len() ==> glyphs@[0].height * rs <= (
                    #[trigger] glyphs@[c]).bitmask@.len()
            },
        ensures
            r@ == expanded_str(glyphs@, fg_color, bg_color),
    {
        if glyphs.len() == 0 {
            return vec![];
        }
        let glyph_count = glyphs.len();
        let glyph_height = glyphs[0].height;
        proof {
            lemma_round_up(glyphs@[0].width as int, 8);
        }
        let glyph_row_stride = next_multiple_of_usize(glyphs[0].width, 8) / 8;
        let ghost gs = glyphs@;
        let ghost bs = bitmasks(gs);
        let ghost rowf = |row: int| str_row(bs, row, glyph_row_stride as int, fg_color, bg_color);
        let mut ret: Vec<u32> = Vec::new();
        let mut row: usize = 0;
        while row < glyph_height
            invariant
                0 <= row <= glyph_height,
                gs == glyphs@,
                gs.len() > 0,
                glyph_count == gs.len(),
                glyph_height == gs[0].height,
                glyph_row_stride == row_bytes(gs[0].width as int),
                glyph_height * glyph_row_stride <= usize::MAX,
                forall|c: int|
                    0 <= c < gs.len() ==> glyph_height * glyph_row_stride <= (
                    #[trigger] gs[c]).bitmask@.len(),
                ret@ == Seq::new(row as nat, rowf).flatten(),
            decreases glyph_height - row,
        {
            proof {
                lemma_row_bounds(row as int, glyph_row_stride as int, glyph_height as int);
            }
            let start = row * glyph_row_stride;
            let ghost colf = |c: int| glyph_row(gs[c].bitmask@, start as int, glyph_row_stride as int, fg_color, bg_color);
            let ghost before_row = ret@;
            let mut col: usize = 0;
            while col < glyph_count
                invariant
                    0 <= col <= glyph_count,
                    gs == glyphs@,
                    gs.len() > 0,
                    glyph_count == gs.len(),
                    start + glyph_row_stride <= glyph_height * glyph_row_stride,
                    forall|c: int|
                        0 <= c < gs.len() ==> glyph_height * glyph_row_stride <= (
                        #[trigger] gs[c]).bitmask@.len(),
                    ret@ == before_row + Seq::new(col as nat, colf).flatten(),
                decreases glyph_count - col,
            {
                let glyph = &glyphs[col];
                let ghost kf = |k: int| bits8(gs[col as int].bitmask@[start + k], fg_color, bg_color);
                let mut bytes: Vec<u32> = Vec::new();
                let mut k: usize = 0;
                let blen = glyph.bitmask.len();
                proof {
                    assert(Seq::new(0, kf) =~= Seq::<Seq<u32>>::empty());
                }
                while k < glyph_row_stride
                    invariant
                        0 <= k <= glyph_row_stride,
                        0 <= col < gs.len(),
                        *glyph == gs[col as int],
                        blen == glyph.bitmask@.len(),
                        start + glyph_row_stride <= glyph.bitmask@.len(),
                        bytes@ == Seq::new(k as nat, kf).flatten(),
                    decreases glyph_row_stride - k,
                {
                    let mut part = Self::expand_bitmask(glyph.bitmask[start + k], fg_color, bg_color);
                    proof {
                        assert(kf(k as int) == part@);
                        assert(Seq::new((k + 1) as nat, kf) =~= Seq::new(k as nat, kf).push(
                            kf(k as int),
                        ));
                        Seq::new(k as nat, kf).lemma_flatten_push(kf(k as int));
                    }
                    bytes.append(&mut part);
                    k = k + 1;
                }
                proof {
                    assert(Seq::new(glyph_row_stride as nat, kf) =~= Seq::new(
                        glyph_row_stride as nat,
                        |k: int| bits8(gs[col as int].bitmask@[start + k], fg_color, bg_color),
                    ));
                    assert(colf(col as int) == glyph_row(gs[col as int].bitmask@, start as int, glyph_row_stride as int, fg_color, bg_color));
                    assert(bytes@ == colf(col as int));
                    assert(Seq::new((col + 1) as nat, colf) =~= Seq::new(col as nat, colf).push(
                        colf(col as int),
                    ));
                    Seq::new(col as nat, colf).lemma_flatten_push(colf(col as int));
                }
                ret.append(&mut bytes);
                col = col + 1;
            }
            proof {
                assert(Seq::new(glyph_count as nat, colf) =~= Seq::new(
                    gs.len(),
                    |c: int| glyph_row(gs[c].bitmask@, row * glyph_row_stride, glyph_row_stride as int, fg_color, bg_color),
                ));
                assert(rowf(row as int) == str_row(bs, row as int, glyph_row_stride as int, fg_color, bg_color));
                assert(Seq::new(glyph_count as nat, colf) =~= Seq::new(
                    bs.len(),
                    |c: int| glyph_row(bs[c], row * glyph_row_stride, glyph_row_stride as int, fg_color, bg_color),
                ));
                assert(Seq::new(glyph_count as nat, colf).flatten() == rowf(row as int));
                assert(Seq::new((row + 1) as nat, rowf) =~= Seq::new(row as nat, rowf).push(
                    rowf(row as int),
                ));
                Seq::new(row as nat, rowf).lemma_flatten_push(rowf(row as int));
            }
            row = row + 1;
        }
        ret
    }
}

/// Glyph type, just bitmasks
pub struct Glyph {
    pub bitmask: Vec<u8>,
    pub width: usize,
    pub height: usize,
}

/// A font: its header and the glyph data that follows it.
pub struct Psf {
    pub data: Vec<u8>,
    pub header: PsfHeader,
}

/// Size of the header that `h` is.
pub open spec fn header_size(h: PsfHeader) -> int {
    match h {
        PsfHeader::Psf1(_) => 4,
        PsfHeader::Psf2(_) => 32,
    }
}

/// Bytes of one glyph.
pub open spec fn stride_of(h: PsfHeader) -> usize {
    match h {
        PsfHeader::Psf1(p) => p.glyph_size as usize,
        PsfHeader::Psf2(p) => p.glyph_size as usize,
    }
}

/// The glyph slot a character is drawn from: control characters are drawn
/// as a space.
pub open spec fn glyph_slot(c: u32) -> int {
    if c < 0x20 || c == 0x7f {
        0x20
    } else {
        c as int
    }
}

impl Psf {
    /// Reads a font: its header, then the glyph data after it.
    pub fn new(data: &[u8]) -> (r: Result<Self, PsfError>)
        requires
            header_fits(data@),
        ensures
            header_of(data@) is None ==> r == Err::<Psf, PsfError>(PsfError::InvalidHeader),
            header_of(data@) matches Some(h) ==> (r matches Ok(p) && p.header == h && p.data@
                == data@.subrange(header_size(h), data@.len() as int)),
    {
        let header = match PsfHeader::parse(data) {
            Ok(h) => h,
            Err(e) => {
                return Err(e);
            },
        };
        let header_size = match &header {
            PsfHeader::Psf1(_) => PSF1_HEADER_SIZE,
            PsfHeader::Psf2(_) => PSF2_HEADER_SIZE,
        };
        let mut rest: Vec<u8> = Vec::new();
        let mut i = header_size;
        while i < data.len()
            invariant
                header_size <= i <= data@.len(),
                rest@ == data@.subrange(header_size as int, i as int),
            decreases data@.len() - i,
        {
            rest.push(data[i]);
            proof {
                assert(rest@ =~= data@.subrange(header_size as int, i + 1));
            }
            i = i + 1;
        }
        Ok(Self { data: rest, header })
    }

    /// Whether the font maps unicode to glyphs: never so far.
    pub fn is_unicode(&self) -> (r: bool)
        ensures
            !r,
    {
        false
    }

    /// Number of glyphs: 256 or 512 in version 1, by the low mode bit.
    pub fn get_glyph_count(&self) -> (r: usize)
        ensures
            r == match self.header {
                PsfHeader::Psf1(p) => if p.modes & 1 == 0 {
                    256usize
                } else {
                    512usize
                },
                PsfHeader::Psf2(p) => p.length as usize,
            },
    {
        match &self.header {
            PsfHeader::Psf1(psf1) => {
                if psf1.modes & 0x1 == 0 {
                    256
                } else {
                    512
                }
            },
            PsfHeader::Psf2(psf2) => psf2.length as usize,
        }
    }

    /// Bytes of one glyph.
    pub fn glyph_stride(&self) -> (r: usize)
        ensures
            r == stride_of(self.header),
    {
        match &self.header {
            PsfHeader::Psf1(psf1) => psf1.glyph_size as usize,
            PsfHeader::Psf2(psf2) => psf2.glyph_size as usize,
        }
    }

    /// The glyph data holds the glyph for slot `slot`.
    pub open spec fn holds_slot(&self, slot: int) -> bool {
        (slot + 1) * stride_of(self.header) <= self.data@.len()
    }

    /// The bitmask of the glyph for character `c`.
    pub open spec fn glyph_bits(&self, c: u32) -> Seq<u8> {
        let st = stride_of(self.header) as int;
        let off = glyph_slot(c) * st;
        self.data@.subrange(off, off + st)
    }

    /// The glyph for `c`, an ASCII character; control characters get the
    /// space's glyph; any other character is refused.
    pub fn get_glyph(&self, character: char) -> (r: Result<Glyph, PsfError>)
        requires
            (character as u32) < 128 ==> self.holds_slot(glyph_slot(character as u32)),
        ensures
            (character as u32) >= 128 ==> r == Err::<Glyph, PsfError>(PsfError::InvalidGlyph),
            (character as u32) < 128 ==> (r matches Ok(g) && g.bitmask@ == self.glyph_bits(
                character as u32,
            ) && g.width == self.header.spec_glyph_width() && g.height
                == self.header.spec_glyph_height()),
    {
        let code = character as u32;
        if code >= 128 {
            return Err(PsfError::InvalidGlyph);
        }
        self.glyph_at(code)
    }

    /// The glyph for the ASCII code `code`.
    fn glyph_at(&self, code: u32) -> (r: Result<Glyph, PsfError>)
        requires
            code < 128,
            self.holds_slot(glyph_slot(code)),
        ensures
            r matches Ok(g) && g.bitmask@ == self.glyph_bits(code) && g.width
                == self.header.spec_glyph_width() && g.height == self.header.spec_glyph_height(),
    {
        let slot: usize = if code < 0x20 || code == 0x7f {
            0x20
        } else {
            code as usize
        };
        let stride = self.glyph_stride();
        let n = self.data.len();
        proof {
            assert(slot * stride <= (slot + 1) * stride) by (nonlinear_arith);
            assert((slot + 1) * stride == slot * stride + stride) by (nonlinear_arith);
        }
        let offset = slot * stride;
        let mut bits: Vec<u8> = Vec::new();
        let mut i: usize = 0;
        while i < stride
            invariant
                0 <= i <= stride,
                offset + stride <= self.data@.len(),
                n == self.data@.len(),
                bits@ == self.data@.subrange(offset as int, offset + i),
            decreases stride - i,
        {
            bits.push(self.data[offset + i]);
            proof {
                assert(bits@ =~= self.data@.subrange(offset as int, offset + i + 1));
            }
            i = i + 1;
        }
        Ok(Glyph { bitmask: bits, width: self.width(), height: self.height() })
    }

    /// The glyphs of the characters of `s`; refused unless every character is
    /// ASCII.
    pub fn glyphs(&self, s: &str) -> (r: Result<Vec<Glyph>, PsfError>)
        requires
            vstd::string::is_ascii(s) ==> forall|i: int|
                0 <= i < s.spec_bytes().len() ==> #[trigger] self.holds_slot(
                    glyph_slot(s.spec_bytes()[i] as u32),
                ),
        ensures
            !vstd::string::is_ascii(s) ==> r == Err::<Vec<Glyph>, PsfError>(PsfError::InvalidGlyph),
            vstd::string::is_ascii(s) ==> (r matches Ok(v) && v@.len() == s.spec_bytes().len()
                && forall|i: int|
                0 <= i < v@.len() ==> {
                    &&& (#[trigger] v@[i]).bitmask@ == self.glyph_bits(s.spec_bytes()[i] as u32)
                    &&& v@[i].width == self.header.spec_glyph_width()
                    &&& v@[i].height == self.header.spec_glyph_height()
                }),
    {
        if !s.is_ascii() {
            return Err(PsfError::InvalidGlyph);
        }
        let bytes = s.as_bytes();
        proof {
            broadcast use vstd::string::is_ascii_spec_bytes;
        }
        let mut out: Vec<Glyph> = Vec::new();
        let mut i: usize = 0;
        while i < bytes.len()
            invariant
                0 <= i <= bytes@.len(),
                bytes@ == s.spec_bytes(),
                vstd::string::is_ascii(s),
                s.spec_bytes() == Seq::new(s@.len(), |j| s@.index(j) as u8),
                vstd::utf8::is_ascii_chars(s@),
                forall|j: int|
                    0 <= j < s.spec_bytes().len() ==> #[trigger] self.holds_slot(
                        glyph_slot(s.spec_bytes()[j] as u32),
                    ),
                out@.len() == i,
                forall|j: int|
                    0 <= j < i ==> {
                        &&& (#[trigger] out@[j]).bitmask@ == self.glyph_bits(bytes@[j] as u32)
                        &&& out@[j].width == self.header.spec_glyph_width()
                        &&& out@[j].height == self.header.spec_glyph_height()
                    },
            decreases bytes@.len() - i,
        {
            let b = bytes[i];
            proof {
                assert(s@.index(i as int) as u8 == b);
                assert((s@.index(i as int) as u32) < 128);
            }
            match self.glyph_at(b as u32) {
                Ok(g) => out.push(g),
                Err(e) => {
                    return Err(e);
                },
            }
            i = i + 1;
        }
        Ok(out)
    }

    /// Width of each glyph in pixels
    pub fn width(&self) -> (r: usize)
        ensures
            r == self.header.spec_glyph_width(),
    {
        self.header.glyph_width()
    }

    /// Height of each glyph in pixels
    pub fn height(&self) -> (r: usize)
        ensures
            r == self.header.spec_glyph_height(),
    {
        self.header.glyph_height()
    }

    /// Width and height of each glyph in pixels.
    pub fn dimensions(&self) -> (r: (usize, usize))
        ensures
            r == (self.header.spec_glyph_width(), self.header.spec_glyph_height()),
    {
        self.header.glyph_dimensions()
    }
}

/// A printable ASCII character (0x20 up to 0x7e) is drawn from its own
/// slot: its glyph is the `stride` bytes of the glyph data at the
/// character's code times the stride. A control character is drawn as the
/// space.
pub proof fn law_glyph_of_character(p: Psf, c: u32)
    requires
        c < 128,
    ensures
        0x20 <= c < 0x7f ==> p.glyph_bits(c) == p.data@.subrange(
            c * stride_of(p.header),
            (c + 1) * stride_of(p.header),
        ),
        (c < 0x20 || c == 0x7f) ==> p.glyph_bits(c) == p.data@.subrange(
            0x20 * stride_of(p.header),
            0x21 * stride_of(p.header),
        ),
{
    let st = stride_of(p.header) as int;
    assert((c + 1) * st == c * st + st) by (nonlinear_arith);
    assert(0x21 * st == 0x20 * st + st) by (nonlinear_arith);
}

/// The header of a version 2 font is laid out as the format gives it: the
/// little-endian 32-bit fields at byte offsets 16, 20, 24 and 28 are the
/// number of glyphs, their height, their size in bytes and their width.
pub proof fn law_version_two_header(s: Seq<u8>)
    requires
        !psf1_magic(s),
        psf2_magic(s),
        s.len() >= 32,
    ensures
        header_of(s) matches Some(h) && {
            &&& h is Psf2
            &&& h->Psf2_0.length == vstd::bytes::spec_u32_from_le_bytes(s.subrange(16, 20))
            &&& h.spec_glyph_height() == vstd::bytes::spec_u32_from_le_bytes(s.subrange(20, 24))
            &&& stride_of(h) == vstd::bytes::spec_u32_from_le_bytes(s.subrange(24, 28))
            &&& h.spec_glyph_width() == vstd::bytes::spec_u32_from_le_bytes(s.subrange(28, 32))
        },
{
}

/// The header of a version 1 font is laid out as the format gives it: byte 2
/// holds the font mode and byte 3 the glyph height, which is also each
/// glyph's size in bytes; glyphs are 8 pixels wide.
pub proof fn law_version_one_header(s: Seq<u8>)
    requires
        psf1_magic(s),
        s.len() >= 4,
    ensures
        header_of(s) matches Some(h) && {
            &&& h is Psf1
            &&& h->Psf1_0.modes == s[2]
            &&& h.spec_glyph_height() == s[3]
            &&& stride_of(h) == s[3]
            &&& h.spec_glyph_width() == 8
        },
{
}

} // verus!
