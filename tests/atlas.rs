use font_atlas::backend::{build_font_image, can_build, compute_atlas_width, load_font};
use font_atlas::pow2::{get_nearest_po2, int_sqrt};
use font_atlas::{CharacterInfos, Font, GlyphBitmap, LoadError, SpriteInfos};

fn glyph(width: u32, rows: u32, fill: u8, left: i32, top: i32, advance: i64) -> GlyphBitmap {
    GlyphBitmap {
        width,
        rows,
        buffer: vec![fill; (width * rows) as usize],
        bitmap_left: left,
        bitmap_top: top,
        advance_x: advance,
    }
}

fn texel(data: &[u8], width: u32, x: u32, y: u32) -> u8 {
    data[(y * width + x) as usize]
}

#[test]
fn nearest_po2_values() {
    assert_eq!(get_nearest_po2(1), 1);
    assert_eq!(get_nearest_po2(2), 2);
    assert_eq!(get_nearest_po2(3), 4);
    assert_eq!(get_nearest_po2(5), 8);
    assert_eq!(get_nearest_po2(16), 16);
    assert_eq!(get_nearest_po2(17), 32);
    assert_eq!(get_nearest_po2(1000), 1024);
    assert_eq!(get_nearest_po2(0x8000_0000), 0x8000_0000);
    assert_eq!(get_nearest_po2(0x4000_0001), 0x8000_0000);
}

#[test]
fn nearest_po2_law_on_values() {
    for x in 1u32..5000 {
        let r = get_nearest_po2(x);
        assert!(r >= x);
        assert!(r.is_power_of_two());
        if x.is_power_of_two() {
            assert_eq!(r, x);
        }
    }
}

#[test]
fn int_sqrt_values() {
    assert_eq!(int_sqrt(0), 0);
    assert_eq!(int_sqrt(1), 1);
    assert_eq!(int_sqrt(15), 3);
    assert_eq!(int_sqrt(16), 4);
    assert_eq!(int_sqrt(256), 16);
    assert_eq!(int_sqrt(u128::MAX), u64::MAX as u128);
}

#[test]
fn atlas_width_values() {
    assert_eq!(compute_atlas_width(1, 16), 32);
    assert_eq!(compute_atlas_width(3, 4), 8);
    // 100 glyphs of 16x16: side 160, rounded up to 256
    assert_eq!(compute_atlas_width(100, 16), 256);
}

#[test]
fn single_opaque_glyph() {
    let glyphs = vec![('X', Some(glyph(10, 10, 255, 1, 10, 12 * 64)))];
    assert!(can_build(&glyphs, 16));
    let (font, tex) = Font::load(glyphs, 16);
    assert_eq!(tex.width, 32);
    assert_eq!(tex.height, 16);
    assert_eq!(tex.data.len(), 32 * 16);
    for y in 0..16 {
        for x in 0..32 {
            let inside = (2..12).contains(&x) && y < 10;
            assert_eq!(texel(&tex.data, 32, x, y), if inside { 255 } else { 0 });
        }
    }
    let m = font.character('X').unwrap();
    assert_eq!(m.tex_coords, (2, 0));
    assert_eq!(m.tex_size, (10, 10));
    assert_eq!(m.size, (10, 10));
    assert_eq!(font.em_pixels(), 16);
    // normalized size times the atlas dimensions gives the glyph back
    let tw = m.tex_size.0 as f64 / font.texture_width() as f64 * tex.width as f64;
    let th = m.tex_size.1 as f64 / font.texture_height() as f64 * tex.height as f64;
    assert!((tw - 10.0).abs() < 1e-9 && (th - 10.0).abs() < 1e-9);
    let (sprites, _) = font.calculate("X");
    assert_eq!(sprites.len(), 1);
    let s = sprites[0];
    assert_eq!(s.right_position - s.left_position, 64 * m.size.0 as i128);
    let em_width = (s.right_position - s.left_position) as f64 / (64.0 * font.em_pixels() as f64);
    assert!((em_width - 10.0 / 16.0).abs() < 1e-9);
}

#[test]
fn shelves_wrap_and_pad() {
    let glyphs = vec![
        ('a', Some(glyph(3, 2, 7, 1, 2, 5 * 64))),
        ('b', Some(glyph(3, 3, 9, 0, 3, 4 * 64))),
        ('c', None),
    ];
    assert!(can_build(&glyphs, 4));
    let (tex, infos, em) = build_font_image(&glyphs, 4);
    assert_eq!(tex.width, 8);
    // rows used: 4 for the first shelf, 5 for the second
    assert_eq!(tex.height, 16);
    assert_eq!(tex.data.len(), 128);
    assert_eq!(em, 4);
    assert_eq!(infos.len(), 2);
    assert_eq!(infos[0].0, 'a');
    assert_eq!(infos[0].1.tex_coords, (2, 0));
    assert_eq!(infos[0].1.right_padding, 5 * 64 - 3 * 64 - 64);
    assert_eq!(infos[1].0, 'b');
    assert_eq!(infos[1].1.tex_coords, (0, 4));
    assert_eq!(infos[1].1.right_padding, 64);
    let mut nonzero = 0;
    for y in 0..16 {
        for x in 0..8 {
            let v = texel(&tex.data, 8, x, y);
            if (2..5).contains(&x) && y < 2 {
                assert_eq!(v, 7);
            } else if x < 3 && (4..7).contains(&y) {
                assert_eq!(v, 9);
            } else {
                assert_eq!(v, 0);
            }
            if v != 0 {
                nonzero += 1;
            }
        }
    }
    assert_eq!(nonzero, 6 + 9);
}

#[test]
fn bitmap_rows_are_copied_in_order() {
    let g = GlyphBitmap {
        width: 2,
        rows: 2,
        buffer: vec![1, 2, 3, 4],
        bitmap_left: 0,
        bitmap_top: 2,
        advance_x: 128,
    };
    let glyphs = vec![('q', Some(g))];
    let (tex, _, _) = load_font(&glyphs, 8);
    assert_eq!(tex.width, 16);
    assert_eq!(texel(&tex.data, 16, 2, 0), 1);
    assert_eq!(texel(&tex.data, 16, 3, 0), 2);
    assert_eq!(texel(&tex.data, 16, 2, 1), 3);
    assert_eq!(texel(&tex.data, 16, 3, 1), 4);
}

#[test]
fn em_taken_from_m() {
    let glyphs = vec![('M', Some(glyph(6, 7, 1, 0, 7, 6 * 64))), ('i', Some(glyph(2, 7, 1, 0, 7, 3 * 64)))];
    let (font, _) = Font::load(glyphs, 8);
    assert_eq!(font.em_pixels(), 7);
}

#[test]
fn glyphs_do_not_overlap() {
    let mut glyphs = Vec::new();
    for (i, c) in "abcdefghijklmnopqrstuvwxyz".chars().enumerate() {
        let w = 3 + (i as u32 % 5);
        let h = 2 + (i as u32 % 7);
        glyphs.push((c, Some(glyph(w, h, 1 + i as u8, 0, h as i32, (w as i64 + 1) * 64))));
    }
    assert!(can_build(&glyphs, 8));
    let (tex, infos, _) = build_font_image(&glyphs, 8);
    assert!(tex.width.is_power_of_two() && tex.height.is_power_of_two());
    assert_eq!(tex.data.len(), (tex.width * tex.height) as usize);
    for (i, (_, a)) in infos.iter().enumerate() {
        assert!(a.tex_coords.0 + a.tex_size.0 <= tex.width);
        assert!(a.tex_coords.1 + a.tex_size.1 <= tex.height);
        for (_, b) in infos.iter().skip(i + 1) {
            let apart = a.tex_coords.0 + a.tex_size.0 <= b.tex_coords.0
                || b.tex_coords.0 + b.tex_size.0 <= a.tex_coords.0
                || a.tex_coords.1 + a.tex_size.1 <= b.tex_coords.1
                || b.tex_coords.1 + b.tex_size.1 <= a.tex_coords.1;
            assert!(apart);
        }
    }
}

#[test]
fn refused_inputs() {
    let one = vec![('a', Some(glyph(3, 3, 1, 0, 3, 192)))];
    assert!(!can_build(&one, 0));
    assert!(!can_build(&Vec::new(), 16));
    assert!(!can_build(&vec![('a', None)], 16));
    // wider than the 32-texel atlas
    assert!(!can_build(&vec![('w', Some(glyph(40, 3, 1, 0, 3, 192)))], 16));
    let bad = GlyphBitmap { width: 2, rows: 2, buffer: vec![1, 2, 3], bitmap_left: 0, bitmap_top: 0, advance_x: 0 };
    assert!(!can_build(&vec![('a', Some(bad))], 16));
    assert!(can_build(&one, 16));
}

fn font_with_a() -> Font {
    let glyphs = vec![('A', Some(glyph(3, 2, 200, 1, 5, 5 * 64))), ('B', None)];
    Font::load(glyphs, 4).0
}

#[test]
fn layout_of_empty_text() {
    let font = font_with_a();
    let (sprites, width) = font.calculate("");
    assert!(sprites.is_empty());
    assert_eq!(width, 0);
}

#[test]
fn layout_is_repeatable() {
    let font = font_with_a();
    assert_eq!(font.calculate("AAxA"), font.calculate("AAxA"));
}

#[test]
fn layout_skips_unrenderable() {
    let font = font_with_a();
    assert!(font.character('B').is_none());
    let (ab, wab) = font.calculate("AB");
    let (a, wa) = font.calculate("A");
    assert_eq!(ab.len(), 1);
    assert_eq!(ab, a);
    assert_eq!(wab, wa);
}

#[test]
fn layout_positions() {
    let font = font_with_a();
    let m: CharacterInfos = font.character('A').unwrap();
    assert_eq!(m.tex_coords, (2, 0));
    let (sprites, width) = font.calculate("AA");
    assert_eq!(sprites.len(), 2);
    assert_eq!(
        sprites[0],
        SpriteInfos {
            left_position: 64,
            top_position: 320,
            right_position: 256,
            bottom_position: 192,
            left_tex_coords: 2,
            top_tex_coords: 0,
            right_tex_coords: 5,
            bottom_tex_coords: 2,
        }
    );
    assert_eq!(sprites[1].left_position, 320 + 64);
    assert_eq!(width, 640);
}

#[test]
fn first_entry_wins() {
    let glyphs = vec![('z', Some(glyph(2, 2, 1, 0, 2, 128))), ('z', Some(glyph(4, 2, 1, 0, 2, 256)))];
    let (font, _) = Font::load(glyphs, 8);
    assert_eq!(font.character('z').unwrap().size, (2, 2));
}

#[test]
fn load_error_kind() {
    let e = LoadError::WrongFormat;
    assert_eq!(e, LoadError::WrongFormat);
}
