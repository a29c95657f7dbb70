use vstd::prelude::*;

use crate::TextureData;
use crate::pow2::{get_nearest_po2, int_sqrt, is_pow2, isqrt, lemma_next_pow2_bounds, next_pow2};

verus! {

/// Horizontal gap in texels left before each glyph, and extra rows below it,
/// so that filtering never blends two glyphs.
pub const MARGIN: u32 = 2;

/// A glyph as the rasterizer hands it over: a single-channel coverage bitmap,
/// row-major with `width` bytes per row, and its placement metrics in pixels.
pub struct GlyphBitmap {
    pub width: u32,
    pub rows: u32,
    pub buffer: Vec<u8>,
    /// Distance from the pen position to the bitmap's left edge.
    pub bitmap_left: i32,
    /// Distance from the baseline to the bitmap's top row.
    pub bitmap_top: i32,
    /// Horizontal advance, in 1/64 of a pixel.
    pub advance_x: i64,
}

/// Largest advance magnitude accepted, in 1/64 of a pixel.
pub const MAX_ADVANCE: i64 = 0x4000_0000_0000_0000;

impl GlyphBitmap {
    pub open spec fn wf(&self) -> bool {
        &&& self.buffer@.len() == self.width as int * self.rows as int
        &&& -MAX_ADVANCE <= self.advance_x <= MAX_ADVANCE
    }
}

/// Informations about a character of a font, in exact integer units.
///
/// `tex_coords` and `tex_size` are in texels: divided by the atlas width
/// (x) and height (y) they give the normalized texture rectangle.
/// `size`, `height_over_line` and `left_padding` are in pixels and
/// `right_padding` in 1/64 of a pixel: divided by the font's em size in
/// pixels (times 64 for `right_padding`) they give em units.
#[derive(Copy, Clone, Debug)]
pub struct CharacterInfos {
    pub tex_coords: (u32, u32),
    pub tex_size: (u32, u32),
    pub size: (u32, u32),
    pub height_over_line: i32,
    pub left_padding: i32,
    pub right_padding: i64,
}

/// Cursor of the shelf packer, between two glyphs.
pub struct PackState {
    pub x: int,
    pub y: int,
    /// Height of the current shelf: rows to skip at the next wrap.
    pub skip: int,
    pub em: int,
    pub infos: Seq<(char, CharacterInfos)>,
    pub bitmaps: Seq<Seq<u8>>,
}

/// Metrics recorded for glyph `g` placed at texel `(x, y)`.
pub open spec fn glyph_infos(g: GlyphBitmap, x: int, y: int) -> CharacterInfos {
    CharacterInfos {
        tex_coords: (x as u32, y as u32),
        tex_size: (g.width, g.rows),
        size: (g.width, g.rows),
        height_over_line: g.bitmap_top,
        left_padding: g.bitmap_left,
        right_padding: (g.advance_x - 64 * g.width - 64 * g.bitmap_left) as i64,
    }
}

/// Whether glyph `g` does not fit on the current shelf after the margin.
pub open spec fn must_wrap(st: PackState, g: GlyphBitmap, w: int) -> bool {
    st.x + MARGIN + g.width + MARGIN >= w
}

/// Places one rasterized glyph and moves the cursor past it.
pub open spec fn pack_step(st: PackState, c: char, g: GlyphBitmap, w: int) -> PackState {
    let wrap = must_wrap(st, g, w);
    let x1 = if wrap { 0 } else { st.x + MARGIN };
    let y1 = if wrap { st.y + st.skip } else { st.y };
    let s1 = if wrap { 0 } else { st.skip };
    let need = MARGIN + g.rows;
    PackState {
        x: x1 + g.width,
        y: y1,
        skip: if s1 < need { need } else { s1 },
        em: if c == 'M' { g.rows as int } else { st.em },
        infos: st.infos.push((c, glyph_infos(g, x1, y1))),
        bitmaps: st.bitmaps.push(g.buffer@),
    }
}

/// Packs the glyphs in order on shelves of an atlas `w` texels wide; glyphs
/// that could not be rasterized (`None`) are left out.
pub open spec fn pack(glyphs: Seq<(char, Option<GlyphBitmap>)>, w: int, font_size: int) -> PackState
    decreases glyphs.len(),
{
    if glyphs.len() == 0 {
        PackState { x: 0, y: 0, skip: 0, em: font_size, infos: seq![], bitmaps: seq![] }
    } else {
        let st = pack(glyphs.drop_last(), w, font_size);
        match glyphs.last().1 {
            Some(g) => pack_step(st, glyphs.last().0, g, w),
            None => st,
        }
    }
}

/// An upper bound on the rows that packing the glyphs can take.
pub open spec fn rows_bound(glyphs: Seq<(char, Option<GlyphBitmap>)>) -> int
    decreases glyphs.len(),
{
    if glyphs.len() == 0 {
        0
    } else {
        rows_bound(glyphs.drop_last()) + match glyphs.last().1 {
            Some(g) => MARGIN + g.rows,
            None => 0,
        }
    }
}

/// Width of the atlas for `n` glyphs at pixel size `font_size`: a power of
/// two that is at least twice the pixel size and about the side of a square
/// holding `n` glyphs of `font_size` by `font_size` pixels.
pub open spec fn atlas_width(n: nat, font_size: nat) -> nat {
    let side = isqrt(n * font_size * font_size);
    next_pow2(if 2 * font_size >= side { 2 * font_size } else { side })
}

/// Texel rows used by the packed glyphs, before rounding up.
pub open spec fn packed_rows(st: PackState) -> int {
    st.y + st.skip
}

/// The texel rectangles of two glyphs do not overlap.
pub open spec fn disjoint(a: CharacterInfos, b: CharacterInfos) -> bool {
    ||| a.tex_coords.0 + a.tex_size.0 <= b.tex_coords.0
    ||| b.tex_coords.0 + b.tex_size.0 <= a.tex_coords.0
    ||| a.tex_coords.1 + a.tex_size.1 <= b.tex_coords.1
    ||| b.tex_coords.1 + b.tex_size.1 <= a.tex_coords.1
}

/// Coverage byte at texel column `px`, row `py` of the atlas holding the
/// placed glyphs `infos` with bitmaps `bitmaps`: the byte of the glyph whose
/// rectangle holds the texel (the last one, were there several), else 0.
pub open spec fn texel_of(infos: Seq<(char, CharacterInfos)>, bitmaps: Seq<Seq<u8>>, px: int, py: int) -> u8
    decreases infos.len(),
{
    if infos.len() == 0 || bitmaps.len() == 0 {
        0
    } else {
        let r = infos.last().1;
        if in_rect(r.tex_coords.0 as int, r.tex_coords.1 as int, r.tex_size.0 as int, r.tex_size.1 as int, px, py) {
            bitmaps.last()[(py - r.tex_coords.1) * r.tex_size.0 + (px - r.tex_coords.0)]
        } else {
            texel_of(infos.drop_last(), bitmaps.drop_last(), px, py)
        }
    }
}

/// The inputs on which an atlas can be built: a positive pixel size, every
/// bitmap well formed and no wider than the atlas, at least one glyph, and
/// sizes that fit the integer types of the texture.
pub open spec fn buildable(glyphs: Seq<(char, Option<GlyphBitmap>)>, font_size: nat) -> bool {
    let n = glyphs.len();
    let side = isqrt(n * font_size * font_size);
    &&& font_size >= 1
    &&& 2 * font_size <= 0x8000_0000
    &&& side <= 0x8000_0000
    &&& forall|i: int|
        0 <= i < n && (#[trigger] glyphs[i]).1 is Some ==> glyphs[i].1->0.wf()
            && glyphs[i].1->0.width <= atlas_width(n, font_size)
    &&& 0 < rows_bound(glyphs) <= 0x4000_0000
    &&& atlas_width(n, font_size) * 2 * rows_bound(glyphs) <= usize::MAX
}

/// What holds after packing a prefix: the cursor stays in the atlas, every
/// rectangle lies in the rows used so far, on an earlier shelf or left of the
/// cursor, and no two rectangles overlap.
pub open spec fn pack_inv(st: PackState, w: int) -> bool {
    &&& 0 <= st.x <= w
    &&& 0 <= st.y
    &&& 0 <= st.skip
    &&& st.infos.len() == st.bitmaps.len()
    &&& forall|k: int|
        0 <= k < st.infos.len() ==> {
            let r = #[trigger] st.infos[k].1;
            &&& r.tex_coords.0 + r.tex_size.0 <= w
            &&& r.tex_coords.1 + r.tex_size.1 <= st.y + st.skip
            &&& (r.tex_coords.1 + r.tex_size.1 <= st.y || r.tex_coords.0 + r.tex_size.0 <= st.x)
            &&& r.tex_size == r.size
            &&& st.bitmaps[k].len() == r.tex_size.0 * r.tex_size.1
        }
    &&& forall|j: int, k: int|
        0 <= j < k < st.infos.len() ==> disjoint(#[trigger] st.infos[j].1, #[trigger] st.infos[k].1)
}

pub proof fn lemma_pack_inv(glyphs: Seq<(char, Option<GlyphBitmap>)>, w: int, font_size: int)
    requires
        0 < w <= u32::MAX,
        rows_bound(glyphs) <= 0x4000_0000,
        forall|i: int|
            0 <= i < glyphs.len() && (#[trigger] glyphs[i]).1 is Some ==> glyphs[i].1->0.wf()
                && glyphs[i].1->0.width <= w,
    ensures
        pack_inv(pack(glyphs, w, font_size), w),
        packed_rows(pack(glyphs, w, font_size)) <= rows_bound(glyphs),
        0 <= rows_bound(glyphs),
        rows_bound(glyphs) > 0 ==> packed_rows(pack(glyphs, w, font_size)) > 0,
    decreases glyphs.len(),
{
    if glyphs.len() > 0 {
        let pre = glyphs.drop_last();
        assert forall|i: int|
            0 <= i < pre.len() && (#[trigger] pre[i]).1 is Some implies pre[i].1->0.wf()
                && pre[i].1->0.width <= w by {
            assert(pre[i] == glyphs[i]);
        }
        lemma_pack_inv(pre, w, font_size);
        let st = pack(pre, w, font_size);
        if let Some(g) = glyphs.last().1 {
            assert(glyphs[glyphs.len() - 1] == glyphs.last());
            let st2 = pack_step(st, glyphs.last().0, g, w);
            assert(st2 == pack(glyphs, w, font_size));
            let n = st.infos.len();
            assert forall|k: int| 0 <= k < st2.infos.len() implies {
                let r = #[trigger] st2.infos[k].1;
                &&& r.tex_coords.0 + r.tex_size.0 <= w
                &&& r.tex_coords.1 + r.tex_size.1 <= st2.y + st2.skip
                &&& (r.tex_coords.1 + r.tex_size.1 <= st2.y || r.tex_coords.0 + r.tex_size.0 <= st2.x)
                &&& r.tex_size == r.size
                &&& st2.bitmaps[k].len() == r.tex_size.0 * r.tex_size.1
            } by {
                if k < n {
                    assert(st2.infos[k] == st.infos[k]);
                    assert(st2.bitmaps[k] == st.bitmaps[k]);
                }
            }
            assert forall|j: int, k: int|
                0 <= j < k < st2.infos.len() implies disjoint(#[trigger] st2.infos[j].1, #[trigger] st2.infos[k].1) by {
                assert(st2.infos[j] == st.infos[j]);
                if k < n {
                    assert(st2.infos[k] == st.infos[k]);
                }
            }
        }
    }
}

/// No glyph reaches row `py`: the texels there are empty.
proof fn lemma_texel_above(infos: Seq<(char, CharacterInfos)>, bitmaps: Seq<Seq<u8>>, px: int, py: int)
    requires
        forall|k: int| 0 <= k < infos.len() ==> (#[trigger] infos[k]).1.tex_coords.1 + infos[k].1.tex_size.1 <= py,
    ensures
        texel_of(infos, bitmaps, px, py) == 0,
    decreases infos.len(),
{
    if infos.len() > 0 && bitmaps.len() > 0 {
        let pre = infos.drop_last();
        assert forall|k: int| 0 <= k < pre.len() implies (#[trigger] pre[k]).1.tex_coords.1 + pre[k].1.tex_size.1 <= py by {
            assert(pre[k] == infos[k]);
        }
        assert(infos.last() == infos[infos.len() - 1]);
        lemma_texel_above(pre, bitmaps.drop_last(), px, py);
    }
}

/// Texel `p` of an image `w` wide lies on row `rows` or above when `p` is
/// past the first `rows` rows.
proof fn lemma_row_of(p: int, w: int, rows: int)
    requires
        w >= 1,
        rows >= 0,
        p >= w * rows,
    ensures
        p / w >= rows,
{
    vstd::arithmetic::div_mod::lemma_fundamental_div_mod(p, w);
    vstd::arithmetic::div_mod::lemma_mod_pos_bound(p, w);
    if p / w < rows {
        assert(false) by (nonlinear_arith)
            requires
                p == w * (p / w) + p % w,
                p % w < w,
                p / w < rows,
                p >= w * rows,
                w >= 1,
        ;
    }
}

/// Rows used by a prefix never exceed those bounded for the whole list.
proof fn lemma_rows_bound_prefix(glyphs: Seq<(char, Option<GlyphBitmap>)>, i: int)
    requires
        0 <= i <= glyphs.len(),
    ensures
        rows_bound(glyphs.take(i)) <= rows_bound(glyphs),
    decreases glyphs.len(),
{
    if i < glyphs.len() {
        assert(glyphs.drop_last().take(i) == glyphs.take(i));
        lemma_rows_bound_prefix(glyphs.drop_last(), i);
    } else {
        assert(glyphs.take(i) == glyphs);
    }
}

/// Appends `count` zero texels.
fn push_zeros(data: &mut Vec<u8>, count: usize)
    requires
        old(data)@.len() + count <= usize::MAX,
    ensures
        final(data)@ == old(data)@ + Seq::new(count as nat, |i: int| 0u8),
{
    let ghost start = data@;
    let mut k: usize = 0;
    while k < count
        invariant
            k <= count,
            start.len() + count <= usize::MAX,
            data@ == start + Seq::new(k as nat, |i: int| 0u8),
        decreases count - k,
    {
        data.push(0u8);
        k = k + 1;
        assert(data@ == start + Seq::new(k as nat, |i: int| 0u8));
    }
}

/// Computes the width of the atlas for `n` glyphs at pixel size `font_size`.
pub fn compute_atlas_width(n: usize, font_size: u32) -> (r: u32)
    requires
        2 * font_size <= 0x8000_0000,
        isqrt(n as nat * font_size as nat * font_size as nat) <= 0x8000_0000,
        font_size >= 1,
    ensures
        r == atlas_width(n as nat, font_size as nat),
        is_pow2(r as nat),
        r >= 2 * font_size,
{
    assert((n as int) * (font_size as int) <= 0x1_0000_0000_0000_0000 * 0x4000_0000
        && (n as int) * (font_size as int) * (font_size as int)
        <= 0x1_0000_0000_0000_0000 * 0x4000_0000 * 0x4000_0000) by (nonlinear_arith)
        requires
            n <= u64::MAX,
            font_size <= 0x4000_0000,
    ;
    let v: u128 = (n as u128) * (font_size as u128) * (font_size as u128);
    let side = int_sqrt(v);
    let twice: u128 = 2 * (font_size as u128);
    let m: u128 = if twice >= side { twice } else { side };
    let r = get_nearest_po2(m as u32);
    proof {
        lemma_next_pow2_bounds(m as nat);
    }
    r
}

/// Packs the rasterized glyphs into one atlas, in order, and records the
/// metrics of each; glyphs that could not be rasterized are left out.
///
/// Returns the texture, the metrics in texels and pixels, and the em size in
/// pixels: the height of `M` where the font has one, else `font_size`.
pub fn build_font_image(glyphs: &Vec<(char, Option<GlyphBitmap>)>, font_size: u32) -> (r: (
    TextureData,
    Vec<(char, CharacterInfos)>,
    u32,
))
    requires
        buildable(glyphs@, font_size as nat),
    ensures
        ({
            let w = atlas_width(glyphs@.len(), font_size as nat);
            let st = pack(glyphs@, w as int, font_size as int);
            &&& r.0.width == w
            &&& r.0.height == next_pow2(packed_rows(st) as nat)
            &&& r.0.data@.len() == r.0.width * r.0.height
            &&& r.1@ == st.infos
            &&& r.2 == st.em
            &&& r.1@.len() == st.bitmaps.len()
            &&& is_pow2(r.0.width as nat)
            &&& is_pow2(r.0.height as nat)
            &&& packed_rows(st) <= r.0.height
            &&& pack_inv(st, w as int)
            &&& forall|p: int|
                0 <= p < r.0.data@.len() ==> #[trigger] r.0.data@[p] == texel_of(
                    st.infos,
                    st.bitmaps,
                    p % (w as int),
                    p / (w as int),
                )
        }),
{
    let n = glyphs.len();
    let w = compute_atlas_width(n, font_size);
    let ghost wi = w as int;
    let ghost all = glyphs@;
    let mut x: u32 = 0;
    let mut y: u32 = 0;
    let mut skip: u32 = 0;
    let mut em: u32 = font_size;
    let mut data: Vec<u8> = Vec::new();
    let mut infos: Vec<(char, CharacterInfos)> = Vec::new();
    let ghost mut bms: Seq<Seq<u8>> = seq![];
    let mut i: usize = 0;
    proof {
        assert(all.take(0) =~= Seq::<(char, Option<GlyphBitmap>)>::empty());
    }
    while i < n
        invariant
            n == all.len(),
            all == glyphs@,
            buildable(all, font_size as nat),
            wi == w,
            w == atlas_width(n as nat, font_size as nat),
            2 <= w,
            i <= n,
            ({
                let st = pack(all.take(i as int), wi, font_size as int);
                &&& st.x == x
                &&& st.y == y
                &&& st.skip == skip
                &&& st.em == em
                &&& st.infos == infos@
                &&& st.bitmaps == bms
            }),
            forall|p: int|
                0 <= p < data@.len() ==> #[trigger] data@[p] == texel_of(infos@, bms, p % wi, p / wi),
            data@.len() == wi * (y + skip),
            y + skip <= rows_bound(all.take(i as int)),
            rows_bound(all.take(i as int)) <= rows_bound(all),
            pack_inv(pack(all.take(i as int), wi, font_size as int), wi),
        decreases n - i,
    {
        let ghost pre = all.take(i as int);
        let ghost cur = all.take(i + 1);
        proof {
            assert(cur.drop_last() == pre);
            assert(cur.last() == all[i as int]);
            lemma_rows_bound_prefix(all, i + 1);
        }
        let c = glyphs[i].0;
        match &glyphs[i].1 {
            None => {},
            Some(g) => {
                proof {
                    assert(all[i as int].1 is Some);
                    assert forall|k: int|
                        0 <= k < cur.len() && (#[trigger] cur[k]).1 is Some implies cur[k].1->0.wf()
                            && cur[k].1->0.width <= wi by {
                        assert(cur[k] == all[k]);
                    }
                    lemma_pack_inv(cur, wi, font_size as int);
                }
                let gw = g.width;
                let gr = g.rows;
                let wrap = (x as u64) + (MARGIN as u64) + (gw as u64) + (MARGIN as u64) >= (w as u64);
                let x1: u32 = if wrap { 0 } else { x + MARGIN };
                let y1: u32 = if wrap { y + skip } else { y };
                let s1: u32 = if wrap { 0 } else { skip };
                let need: u32 = MARGIN + gr;
                let s2: u32 = if s1 < need { need } else { s1 };
                if s1 < need {
                    proof {
                        assert((w as int) * ((need - s1) as int) + data@.len() == (w as int) * (y1 + need)) by (nonlinear_arith)
                            requires
                                data@.len() == (w as int) * (y1 + s1),
                        ;
                        assert((w as int) * (y1 + need) <= usize::MAX) by (nonlinear_arith)
                            requires
                                y1 + need <= rows_bound(all),
                                (w as int) * 2 * rows_bound(all) <= usize::MAX,
                                rows_bound(all) >= 0,
                        ;
                    }
                    let ghost before = data@;
                    push_zeros(&mut data, (w as usize) * ((need - s1) as usize));
                    proof {
                        assert forall|p: int|
                            0 <= p < data@.len() implies #[trigger] data@[p] == texel_of(infos@, bms, p % wi, p / wi) by {
                            if p >= before.len() {
                                lemma_row_of(p, wi, y + skip);
                                let st = pack(pre, wi, font_size as int);
                                assert forall|k: int| 0 <= k < infos@.len() implies (#[trigger] infos@[k]).1.tex_coords.1
                                    + infos@[k].1.tex_size.1 <= p / wi by {
                                    assert(st.infos[k] == infos@[k]);
                                }
                                lemma_texel_above(infos@, bms, p % wi, p / wi);
                            } else {
                                assert(data@[p] == before[p]);
                            }
                        }
                    }
                }
                proof {
                    assert((y1 + gr) * wi <= data@.len()) by (nonlinear_arith)
                        requires
                            y1 + gr <= y1 + s2,
                            data@.len() == wi * (y1 + s2),
                            wi >= 0,
                    ;
                    let st2 = pack(cur, wi, font_size as int);
                    assert(st2.infos.last().1.tex_coords.0 == x1);
                }
                let ghost before = data@;
                let ghost old_infos = infos@;
                let ghost old_bms = bms;
                copy_bitmap(&mut data, w, x1, y1, gw, gr, &g.buffer);
                let left = g.bitmap_left;
                let right_padding: i64 = g.advance_x - 64 * (gw as i64) - 64 * (left as i64);
                infos.push((c, CharacterInfos {
                    tex_coords: (x1, y1),
                    tex_size: (gw, gr),
                    size: (gw, gr),
                    height_over_line: g.bitmap_top,
                    left_padding: left,
                    right_padding,
                }));
                x = x1 + gw;
                y = y1;
                skip = s2;
                if c == 'M' {
                    em = gr;
                }
                proof {
                    bms = bms.push(g.buffer@);
                    assert(infos@ == pack(cur, wi, font_size as int).infos);
                    assert(infos@.drop_last() == old_infos);
                    assert(bms.drop_last() == old_bms);
                    assert forall|p: int|
                        0 <= p < data@.len() implies #[trigger] data@[p] == texel_of(infos@, bms, p % wi, p / wi) by {
                        assert(before[p] == texel_of(old_infos, old_bms, p % wi, p / wi));
                    }
                }
            },
        }
        i = i + 1;
    }
    proof {
        assert(all.take(n as int) == all);
        lemma_pack_inv(all, wi, font_size as int);
    }
    let rows = y + skip;
    let h = get_nearest_po2(rows);
    proof {
        lemma_next_pow2_bounds(rows as nat);
        assert((w as int) * (h as int) <= usize::MAX && (w as int) * (h - rows) + data@.len() == (w as int) * (h as int)) by (nonlinear_arith)
            requires
                data@.len() == (w as int) * (rows as int),
                h < 2 * rows,
                rows <= h,
                rows <= rows_bound(all),
                (w as int) * 2 * rows_bound(all) <= usize::MAX,
        ;
    }
    let ghost before = data@;
    push_zeros(&mut data, (w as usize) * ((h - rows) as usize));
    proof {
        assert forall|p: int|
            0 <= p < data@.len() implies #[trigger] data@[p] == texel_of(infos@, bms, p % wi, p / wi) by {
            if p >= before.len() {
                lemma_row_of(p, wi, rows as int);
                let st = pack(all, wi, font_size as int);
                assert forall|k: int| 0 <= k < infos@.len() implies (#[trigger] infos@[k]).1.tex_coords.1
                    + infos@[k].1.tex_size.1 <= p / wi by {
                    assert(st.infos[k] == infos@[k]);
                }
                lemma_texel_above(infos@, bms, p % wi, p / wi);
            } else {
                assert(data@[p] == before[p]);
            }
        }
    }
    (TextureData { data, width: w, height: h }, infos, em)
}

/// Texel column `px`, row `py` lies in the rectangle `w` by `h` at `(x, y)`.
pub open spec fn in_rect(x: int, y: int, w: int, h: int, px: int, py: int) -> bool {
    x <= px < x + w && y <= py < y + h
}

/// Writes the rows of a `gw` by `gr` bitmap into `data`, an image `w`
/// texels wide, with its first byte at column `x`, row `y`.
fn copy_bitmap(data: &mut Vec<u8>, w: u32, x: u32, y: u32, gw: u32, gr: u32, src: &Vec<u8>)
    requires
        w >= 1,
        x + gw <= w,
        (y + gr) * w <= old(data)@.len(),
        src@.len() == gw * gr,
    ensures
        final(data)@.len() == old(data)@.len(),
        forall|p: int|
            0 <= p < old(data)@.len() ==> #[trigger] final(data)@[p] == if in_rect(
                x as int,
                y as int,
                gw as int,
                gr as int,
                p % (w as int),
                p / (w as int),
            ) {
                src@[(p / (w as int) - y) * gw + (p % (w as int) - x)]
            } else {
                old(data)@[p]
            },
{
    let ghost start = data@;
    let ghost wi = w as int;
    let mut j: u32 = 0;
    while j < gr
        invariant
            w >= 1,
            wi == w,
            x + gw <= w,
            (y + gr) * w <= start.len(),
            src@.len() == gw * gr,
            j <= gr,
            data@.len() == start.len(),
            forall|p: int|
                0 <= p < start.len() ==> #[trigger] data@[p] == if in_rect(
                    x as int,
                    y as int,
                    gw as int,
                    j as int,
                    p % wi,
                    p / wi,
                ) {
                    src@[(p / wi - y) * gw + (p % wi - x)]
                } else {
                    start[p]
                },
        decreases gr - j,
    {
        let mut i: u32 = 0;
        while i < gw
            invariant
                w >= 1,
                wi == w,
                x + gw <= w,
                (y + gr) * w <= start.len(),
                src@.len() == gw * gr,
                j < gr,
                i <= gw,
                data@.len() == start.len(),
                forall|p: int|
                    0 <= p < start.len() ==> #[trigger] data@[p] == if in_rect(
                        x as int,
                        y as int,
                        gw as int,
                        j as int,
                        p % wi,
                        p / wi,
                    ) || in_rect(x as int, y + j, i as int, 1, p % wi, p / wi) {
                        src@[(p / wi - y) * gw + (p % wi - x)]
                    } else {
                        start[p]
                    },
            decreases gw - i,
        {
            let ghost q = (y + j) * wi + (x + i);
            proof {
                assert(q < start.len()) by (nonlinear_arith)
                    requires
                        q == (y + j) * wi + (x + i),
                        x + i < wi,
                        j < gr,
                        (y + gr) * wi <= start.len(),
                ;
                assert(j * gw + i < src@.len()) by (nonlinear_arith)
                    requires
                        j < gr,
                        i < gw,
                        src@.len() == gw * gr,
                ;
                vstd::arithmetic::div_mod::lemma_fundamental_div_mod_converse(q, wi, y + j, x + i);
                assert(y + j <= (y + j) * wi) by (nonlinear_arith)
                    requires
                        wi >= 1,
                        y + j >= 0,
                ;
                assert(data.len() == start.len());
                assert((y + j) * wi + x + i < usize::MAX);
                assert(j * gw <= j * gw + i < src.len());
            }
            let idx: usize = ((y as usize) + (j as usize)) * (w as usize) + (x as usize) + (i as usize);
            let b = src[(j as usize) * (gw as usize) + (i as usize)];
            data.set(idx, b);
            proof {
                assert forall|p: int| 0 <= p < start.len() implies #[trigger] data@[p] == if in_rect(
                    x as int,
                    y as int,
                    gw as int,
                    j as int,
                    p % wi,
                    p / wi,
                ) || in_rect(x as int, y + j, i + 1, 1, p % wi, p / wi) {
                    src@[(p / wi - y) * gw + (p % wi - x)]
                } else {
                    start[p]
                } by {
                    if p != q {
                        vstd::arithmetic::div_mod::lemma_fundamental_div_mod(p, wi);
                        vstd::arithmetic::div_mod::lemma_mod_pos_bound(p, wi);
                        if p % wi == x + i && p / wi == y + j {
                            assert(p == q) by (nonlinear_arith)
                                requires
                                    p == wi * (p / wi) + p % wi,
                                    p % wi == x + i,
                                    p / wi == y + j,
                                    q == (y + j) * wi + (x + i),
                            ;
                        }
                    }
                }
            }
            i = i + 1;
        }
        proof {
            assert forall|p: int| 0 <= p < start.len() implies #[trigger] data@[p] == if in_rect(
                x as int,
                y as int,
                gw as int,
                j + 1,
                p % wi,
                p / wi,
            ) {
                src@[(p / wi - y) * gw + (p % wi - x)]
            } else {
                start[p]
            } by {
                assert(in_rect(x as int, y as int, gw as int, j + 1, p % wi, p / wi) == (in_rect(
                    x as int,
                    y as int,
                    gw as int,
                    j as int,
                    p % wi,
                    p / wi,
                ) || in_rect(x as int, y + j, gw as int, 1, p % wi, p / wi)));
            }
        }
        j = j + 1;
    }
}

/// Loads a font: packs the rasterized glyphs into an atlas (see
/// `build_font_image`).
pub fn load_font(glyphs: &Vec<(char, Option<GlyphBitmap>)>, font_size: u32) -> (r: (
    TextureData,
    Vec<(char, CharacterInfos)>,
    u32,
))
    requires
        buildable(glyphs@, font_size as nat),
    ensures
        ({
            let w = atlas_width(glyphs@.len(), font_size as nat);
            let st = pack(glyphs@, w as int, font_size as int);
            &&& r.0.width == w
            &&& r.0.height == next_pow2(packed_rows(st) as nat)
            &&& r.0.data@.len() == r.0.width * r.0.height
            &&& r.1@ == st.infos
            &&& r.2 == st.em
            &&& is_pow2(r.0.width as nat)
            &&& is_pow2(r.0.height as nat)
            &&& packed_rows(st) <= r.0.height
            &&& pack_inv(st, w as int)
            &&& forall|p: int|
                0 <= p < r.0.data@.len() ==> #[trigger] r.0.data@[p] == texel_of(
                    st.infos,
                    st.bitmaps,
                    p % (w as int),
                    p / (w as int),
                )
        }),
{
    build_font_image(glyphs, font_size)
}

/// Tells whether an atlas can be built from these glyphs at this pixel size
/// (see `buildable`); loading panics where it cannot.
pub fn can_build(glyphs: &Vec<(char, Option<GlyphBitmap>)>, font_size: u32) -> (r: bool)
    ensures
        r == buildable(glyphs@, font_size as nat),
{
    let ghost all = glyphs@;
    if font_size < 1 || font_size > 0x4000_0000 {
        return false;
    }
    let n = glyphs.len();
    assert((n as int) * (font_size as int) <= 0x1_0000_0000_0000_0000 * 0x4000_0000
        && (n as int) * (font_size as int) * (font_size as int)
        <= 0x1_0000_0000_0000_0000 * 0x4000_0000 * 0x4000_0000) by (nonlinear_arith)
        requires
            n <= u64::MAX,
            font_size <= 0x4000_0000,
    ;
    let side = int_sqrt((n as u128) * (font_size as u128) * (font_size as u128));
    if side > 0x8000_0000 {
        return false;
    }
    let w = compute_atlas_width(n, font_size);
    let mut total: u64 = 0;
    let mut i: usize = 0;
    proof {
        assert(all.take(0) =~= Seq::<(char, Option<GlyphBitmap>)>::empty());
    }
    while i < n
        invariant
            all == glyphs@,
            n == all.len(),
            i <= n,
            w == atlas_width(n as nat, font_size as nat),
            total == rows_bound(all.take(i as int)),
            total <= 0x4000_0000,
            forall|k: int|
                0 <= k < i && (#[trigger] all[k]).1 is Some ==> all[k].1->0.wf()
                    && all[k].1->0.width <= w,
        decreases n - i,
    {
        let ghost cur = all.take(i + 1);
        proof {
            assert(cur.drop_last() == all.take(i as int));
            assert(cur.last() == all[i as int]);
        }
        match &glyphs[i].1 {
            None => {},
            Some(g) => {
                assert((g.width as int) * (g.rows as int) <= 0x1_0000_0000 * 0x1_0000_0000) by (nonlinear_arith)
                    requires
                        g.width <= u32::MAX,
                        g.rows <= u32::MAX,
                ;
                if g.buffer.len() as u128 != (g.width as u128) * (g.rows as u128) || g.advance_x
                    < -MAX_ADVANCE || g.advance_x > MAX_ADVANCE || g.width > w {
                    return false;
                }
                total = total + (MARGIN as u64) + (g.rows as u64);
                if total > 0x4000_0000 {
                    proof {
                        lemma_rows_bound_prefix(all, i + 1);
                    }
                    return false;
                }
            },
        }
        i = i + 1;
    }
    proof {
        assert(all.take(n as int) == all);
    }
    if total == 0 {
        return false;
    }
    assert((w as int) * 2 * (total as int) <= 0x1_0000_0000 * 2 * 0x4000_0000) by (nonlinear_arith)
        requires
            w <= 0x1_0000_0000,
            total <= 0x4000_0000,
    ;
    (w as u128) * 2 * (total as u128) <= (usize::MAX as u128)
}

} // verus!
