use hobkey::io::framebuffer::Framebuffer;
use hobkey::io::psf::{Psf, PsfError, PsfHeader};

/// A version 1 font of glyphs two rows high; glyph `A` has the bits
/// `1000_0001` and `0100_0000`.
fn font_bytes() -> Vec<u8> {
    let mut d = vec![0x36, 0x04, 0x00, 2];
    d.extend(vec![0u8; 256 * 2]);
    d[4 + 65 * 2] = 0b1000_0001;
    d[4 + 65 * 2 + 1] = 0b0100_0000;
    d
}

#[test]
fn version_one_magic() {
    assert!(PsfHeader::is_psf1(&[0x36, 0x04]));
    assert!(!PsfHeader::is_psf1(&[0x36, 0x05]));
}

#[test]
fn version_two_magic() {
    assert!(PsfHeader::is_psf2(&[0x72, 0xb5, 0x4a, 0x86]));
    assert!(!PsfHeader::is_psf2(&[0x72, 0xb5, 0x4a, 86]));
}

#[test]
fn unknown_magic_is_refused() {
    assert!(matches!(Psf::new(&[1, 2, 3, 4, 5]), Err(PsfError::InvalidHeader)));
}

#[test]
fn version_one_font_dimensions() {
    let psf = Psf::new(&font_bytes()).ok().unwrap();
    assert_eq!(psf.width(), 8);
    assert_eq!(psf.height(), 2);
    assert_eq!(psf.dimensions(), (8, 2));
    assert_eq!(psf.get_glyph_count(), 256);
    assert_eq!(psf.glyph_stride(), 2);
    assert!(!psf.is_unicode());
    assert_eq!(psf.data.len(), 512);
}

#[test]
fn glyph_expands_to_pixels() {
    let psf = Psf::new(&font_bytes()).ok().unwrap();
    let g = psf.get_glyph('A').ok().unwrap();
    assert_eq!(g.bitmask, vec![0b1000_0001, 0b0100_0000]);
    assert_eq!(g.expand(7, 0), vec![7, 0, 0, 0, 0, 0, 0, 7, 0, 7, 0, 0, 0, 0, 0, 0]);
}

#[test]
fn glyph_beyond_ascii_is_refused() {
    let psf = Psf::new(&font_bytes()).ok().unwrap();
    assert!(matches!(psf.get_glyph('é'), Err(PsfError::InvalidGlyph)));
}

#[test]
fn glyphs_of_a_string() {
    let psf = Psf::new(&font_bytes()).ok().unwrap();
    let gs = psf.glyphs("AA").ok().unwrap();
    assert_eq!(gs.len(), 2);
    let px = hobkey::io::psf::Glyph::expand_str(&gs, 1, 0);
    assert_eq!(px.len(), 32);
    assert_eq!(&px[0..16], &[1, 0, 0, 0, 0, 0, 0, 1, 1, 0, 0, 0, 0, 0, 0, 1]);
    assert_eq!(&px[16..32], &[0, 1, 0, 0, 0, 0, 0, 0, 0, 1, 0, 0, 0, 0, 0, 0]);
}

#[test]
fn framebuffer_without_font_writes_nothing() {
    let mut fb = Framebuffer::new(0x8000_0000, 16, 4, 64);
    assert!(fb.write_str("A").is_none());
    assert_eq!(fb.cursor_pos, (0, 0));
}

#[test]
fn framebuffer_text_pixels_and_cursor() {
    let mut fb = Framebuffer::new(0x8000_0000, 16, 4, 64);
    assert_eq!(fb.size, 256);
    let psf = Psf::new(&font_bytes()).ok().unwrap();
    assert!(fb.set_font(psf).is_none());
    let w = fb.write_str("A").unwrap();
    let m = u32::MAX;
    assert_eq!(
        w,
        vec![
            (0, m), (1, 0), (2, 0), (3, 0), (4, 0), (5, 0), (6, 0), (7, m),
            (16, 0), (17, m), (18, 0), (19, 0), (20, 0), (21, 0), (22, 0), (23, 0),
        ]
    );
    assert_eq!(fb.cursor_pos, (1, 0));
    let w = fb.write_str("A").unwrap();
    assert_eq!(w[0], (8, m));
    assert_eq!(w[8], (24, 0));
    assert_eq!(fb.cursor_pos, (2, 0));
}

#[test]
fn cursor_setters() {
    let mut fb = Framebuffer::new(0, 16, 4, 64);
    fb.set_cursor_x(3);
    fb.set_cursor_y(2);
    assert_eq!(fb.cursor_pos, (3, 2));
    fb.set_cursor_pos((5, 1));
    assert_eq!(fb.cursor_pos, (5, 1));
}

#[test]
fn second_row_of_text_starts_a_glyph_height_down() {
    let mut fb = Framebuffer::new(0, 16, 4, 64);
    fb.set_font(Psf::new(&font_bytes()).ok().unwrap());
    fb.set_cursor_pos((0, 1));
    let w = fb.write_str("A").unwrap();
    assert_eq!(w[0], (2 * (64 / 4), u32::MAX));
}

#[test]
fn text_beyond_ascii_is_refused() {
    let psf = Psf::new(&font_bytes()).ok().unwrap();
    assert!(matches!(psf.glyphs("A\u{e9}"), Err(PsfError::InvalidGlyph)));
    let mut fb = Framebuffer::new(0, 16, 4, 64);
    fb.set_font(psf);
    assert!(fb.write_str("\u{e9}").is_none());
    assert_eq!(fb.cursor_pos, (0, 0));
}
