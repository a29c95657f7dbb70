use vstd::prelude::*;

pub mod backend;
pub mod pow2;

pub use backend::{CharacterInfos, GlyphBitmap};

use backend::{atlas_width, buildable, disjoint, pack, packed_rows, texel_of};
use pow2::{is_pow2, lemma_next_pow2_bounds, next_pow2};

verus! {

/// Error while loading the font.
#[derive(Debug, Copy, Clone, PartialEq, Eq, Structural)]
pub enum LoadError {
    WrongFormat,
}

/// The texture atlas: one coverage byte per texel (0 = empty, 255 = full).
///
/// `data.len()` equals `width * height`. Rows run bottom to top: the first
/// `width` bytes are the bottom line of texels.
pub struct TextureData {
    pub data: Vec<u8>,
    pub width: u32,
    pub height: u32,
}

/// Information about a single sprite that you must draw.
///
/// Positions are in 1/64 of a pixel of the atlas' glyphs, relative to the
/// start of the text on its baseline: divided by `64 * em_pixels` they are in
/// ems. Texture coordinates are in texels: divided by the atlas width (left,
/// right) or height (top, bottom) they are normalized.
#[derive(Debug, Copy, Clone, PartialEq, Eq, Structural)]
pub struct SpriteInfos {
    pub left_position: i128,
    pub top_position: i64,
    pub right_position: i128,
    pub bottom_position: i64,
    pub left_tex_coords: u32,
    pub top_tex_coords: u32,
    pub right_tex_coords: u32,
    pub bottom_tex_coords: u32,
}

/// A loaded font: the metrics of each character and the scales they are in.
pub struct Font {
    character_infos: Vec<(char, CharacterInfos)>,
    em_pixels: u32,
    texture_width: u32,
    texture_height: u32,
}

/// Metrics of the first entry for `c`, if any: where the rasterizer listed a
/// character twice, its first glyph is the one drawn.
pub open spec fn lookup(infos: Seq<(char, CharacterInfos)>, c: char) -> Option<CharacterInfos>
    decreases infos.len(),
{
    if infos.len() == 0 {
        None
    } else if infos[0].0 == c {
        Some(infos[0].1)
    } else {
        lookup(infos.drop_first(), c)
    }
}

/// How far a character moves the cursor, in 1/64 of a pixel.
pub open spec fn advance(m: CharacterInfos) -> int {
    64 * m.left_padding + 64 * m.size.0 + m.right_padding
}

/// Total advance of the renderable characters of `text`.
pub open spec fn text_width(infos: Seq<(char, CharacterInfos)>, text: Seq<char>) -> int
    decreases text.len(),
{
    if text.len() == 0 {
        0
    } else {
        text_width(infos, text.drop_last()) + match lookup(infos, text.last()) {
            Some(m) => advance(m),
            None => 0,
        }
    }
}

/// The sprite of a character drawn with the cursor at `cursor`.
pub open spec fn sprite_at(m: CharacterInfos, cursor: int) -> SpriteInfos {
    SpriteInfos {
        left_position: (cursor + 64 * m.left_padding) as i128,
        top_position: (64 * m.height_over_line) as i64,
        right_position: (cursor + 64 * m.left_padding + 64 * m.size.0) as i128,
        bottom_position: (64 * (m.height_over_line - m.size.1)) as i64,
        left_tex_coords: m.tex_coords.0,
        top_tex_coords: m.tex_coords.1,
        right_tex_coords: (m.tex_coords.0 + m.tex_size.0) as u32,
        bottom_tex_coords: (m.tex_coords.1 + m.tex_size.1) as u32,
    }
}

/// The sprites of `text`: one per renderable character, in order.
pub open spec fn layout(infos: Seq<(char, CharacterInfos)>, text: Seq<char>) -> Seq<SpriteInfos>
    decreases text.len(),
{
    if text.len() == 0 {
        seq![]
    } else {
        let pre = text.drop_last();
        match lookup(infos, text.last()) {
            Some(m) => layout(infos, pre).push(sprite_at(m, text_width(infos, pre))),
            None => layout(infos, pre),
        }
    }
}

/// A character that the font can draw has its metrics in the table.
proof fn lemma_lookup_index(infos: Seq<(char, CharacterInfos)>, c: char) -> (k: int)
    requires
        lookup(infos, c) is Some,
    ensures
        0 <= k < infos.len(),
        infos[k].1 == lookup(infos, c)->0,
    decreases infos.len(),
{
    if infos[0].0 == c {
        0
    } else {
        let k = lemma_lookup_index(infos.drop_first(), c);
        k + 1
    }
}

proof fn lemma_text_width_bound(infos: Seq<(char, CharacterInfos)>, text: Seq<char>)
    ensures
        -(text.len() * 0x1_0000_0000_0000_0000) <= text_width(infos, text) <= text.len()
            * 0x1_0000_0000_0000_0000,
    decreases text.len(),
{
    if text.len() > 0 {
        lemma_text_width_bound(infos, text.drop_last());
    }
}

impl Font {
    pub closed spec fn infos(&self) -> Seq<(char, CharacterInfos)> {
        self.character_infos@
    }

    pub closed spec fn spec_em_pixels(&self) -> u32 {
        self.em_pixels
    }

    pub closed spec fn spec_texture_width(&self) -> u32 {
        self.texture_width
    }

    pub closed spec fn spec_texture_height(&self) -> u32 {
        self.texture_height
    }

    /// Every glyph's rectangle lies in the atlas.
    pub open spec fn wf(&self) -> bool {
        forall|k: int|
            0 <= k < self.infos().len() ==> {
                let m = (#[trigger] self.infos()[k]).1;
                &&& m.tex_coords.0 + m.tex_size.0 <= self.spec_texture_width()
                &&& m.tex_coords.1 + m.tex_size.1 <= self.spec_texture_height()
            }
    }

    /// Builds a font and its texture atlas from the rasterized glyphs of
    /// every character, in the order the rasterizer listed them.
    ///
    /// A greater `font_size` gives a better quality and a larger atlas.
    pub fn load(glyphs: Vec<(char, Option<GlyphBitmap>)>, font_size: u32) -> (r: (Font, TextureData))
        requires
            buildable(glyphs@, font_size as nat),
        ensures
            ({
                let w = atlas_width(glyphs@.len(), font_size as nat);
                let st = pack(glyphs@, w as int, font_size as int);
                &&& r.0.wf()
                &&& r.0.infos() == st.infos
                &&& r.0.spec_em_pixels() == st.em
                &&& r.0.spec_texture_width() == r.1.width
                &&& r.0.spec_texture_height() == r.1.height
                &&& r.1.width == w
                &&& r.1.height == next_pow2(packed_rows(st) as nat)
                &&& r.1.data@.len() == r.1.width * r.1.height
                &&& is_pow2(r.1.width as nat)
                &&& is_pow2(r.1.height as nat)
                &&& forall|p: int|
                    0 <= p < r.1.data@.len() ==> #[trigger] r.1.data@[p] == texel_of(
                        st.infos,
                        st.bitmaps,
                        p % (w as int),
                        p / (w as int),
                    )
            }),
    {
        let (tex, infos, em) = backend::load_font(&glyphs, font_size);
        let font = Font {
            character_infos: infos,
            em_pixels: em,
            texture_width: tex.width,
            texture_height: tex.height,
        };
        proof {
            let w = atlas_width(glyphs@.len(), font_size as nat);
            let st = pack(glyphs@, w as int, font_size as int);
            assert forall|k: int| 0 <= k < font.infos().len() implies {
                let m = (#[trigger] font.infos()[k]).1;
                &&& m.tex_coords.0 + m.tex_size.0 <= font.texture_width
                &&& m.tex_coords.1 + m.tex_size.1 <= font.texture_height
            } by {
                assert(st.infos[k] == font.infos()[k]);
            }
        }
        (font, tex)
    }

    /// Height of an em in the atlas' pixels.
    pub fn em_pixels(&self) -> (r: u32)
        ensures
            r == self.spec_em_pixels(),
    {
        self.em_pixels
    }

    /// Width of the atlas in texels.
    pub fn texture_width(&self) -> (r: u32)
        ensures
            r == self.spec_texture_width(),
    {
        self.texture_width
    }

    /// Height of the atlas in texels.
    pub fn texture_height(&self) -> (r: u32)
        ensures
            r == self.spec_texture_height(),
    {
        self.texture_height
    }

    /// Metrics of character `c`, or `None` where the font cannot draw it.
    pub fn character(&self, c: char) -> (r: Option<CharacterInfos>)
        ensures
            r == lookup(self.infos(), c),
    {
        let mut i: usize = 0;
        assert(self.infos().skip(0) == self.infos());
        while i < self.character_infos.len()
            invariant
                i <= self.infos().len(),
                lookup(self.infos(), c) == lookup(self.infos().skip(i as int), c),
            decreases self.infos().len() - i,
        {
            if self.character_infos[i].0 == c {
                return Some(self.character_infos[i].1);
            }
            assert(self.infos().skip(i as int).drop_first() == self.infos().skip(i + 1));
            i = i + 1;
        }
        None
    }

    /// Calculates the sprite of each character of a text and the text's
    /// total width. The text starts at `(0, 0)` on its baseline; characters
    /// the font cannot draw are skipped.
    pub fn calculate(&self, text: &str) -> (r: (Vec<SpriteInfos>, i128))
        requires
            self.wf(),
            text@.len() <= 0x7fff_ffff_ffff_ffff,
        ensures
            r.0@ == layout(self.infos(), text@),
            r.1 == text_width(self.infos(), text@),
    {
        let mut output: Vec<SpriteInfos> = Vec::new();
        let mut total: i128 = 0;
        let n = text.unicode_len();
        let mut i: usize = 0;
        while i < n
            invariant
                self.wf(),
                n == text@.len(),
                n <= 0x7fff_ffff_ffff_ffff,
                i <= n,
                output@ == layout(self.infos(), text@.take(i as int)),
                total == text_width(self.infos(), text@.take(i as int)),
            decreases n - i,
        {
            let c = text.get_char(i);
            let ghost pre = text@.take(i as int);
            let ghost cur = text@.take(i + 1);
            proof {
                assert(cur.drop_last() == pre);
                assert(cur.last() == c);
                lemma_text_width_bound(self.infos(), pre);
                assert(i * 0x1_0000_0000_0000_0000 <= 0x7fff_ffff_ffff_ffff * 0x1_0000_0000_0000_0000)
                    by (nonlinear_arith)
                    requires
                        i <= 0x7fff_ffff_ffff_ffff,
                ;
            }
            match self.character(c) {
                None => {},
                Some(m) => {
                    proof {
                        let k = lemma_lookup_index(self.infos(), c);
                        assert(self.infos()[k].1 == m);
                    }
                    let left = total + 64 * (m.left_padding as i128);
                    output.push(SpriteInfos {
                        left_position: left,
                        top_position: 64 * (m.height_over_line as i64),
                        right_position: left + 64 * (m.size.0 as i128),
                        bottom_position: 64 * ((m.height_over_line as i64) - (m.size.1 as i64)),
                        left_tex_coords: m.tex_coords.0,
                        top_tex_coords: m.tex_coords.1,
                        right_tex_coords: m.tex_coords.0 + m.tex_size.0,
                        bottom_tex_coords: m.tex_coords.1 + m.tex_size.1,
                    });
                    total = left + 64 * (m.size.0 as i128) + (m.right_padding as i128);
                },
            }
            i = i + 1;
        }
        proof {
            assert(text@.take(n as int) == text@);
        }
        (output, total)
    }
}

/// The atlas is a power of two wide and high, every glyph's rectangle lies
/// inside it, and no two glyphs' rectangles overlap.
pub proof fn lemma_atlas_laws(glyphs: Seq<(char, Option<GlyphBitmap>)>, font_size: nat)
    requires
        buildable(glyphs, font_size),
    ensures
        ({
            let w = atlas_width(glyphs.len(), font_size);
            let st = pack(glyphs, w as int, font_size as int);
            let h = next_pow2(packed_rows(st) as nat);
            &&& is_pow2(w)
            &&& is_pow2(h)
            &&& forall|k: int|
                0 <= k < st.infos.len() ==> {
                    let m = (#[trigger] st.infos[k]).1;
                    &&& 0 <= m.tex_coords.0
                    &&& m.tex_coords.0 + m.tex_size.0 <= w
                    &&& 0 <= m.tex_coords.1
                    &&& m.tex_coords.1 + m.tex_size.1 <= h
                }
            &&& forall|j: int, k: int|
                0 <= j < k < st.infos.len() ==> disjoint(#[trigger] st.infos[j].1, #[trigger] st.infos[k].1)
        }),
{
    let n = glyphs.len();
    let side = pow2::isqrt(n * font_size * font_size);
    let m: nat = if 2 * font_size >= side { 2 * font_size } else { side };
    lemma_next_pow2_bounds(m);
    let w = atlas_width(n, font_size);
    backend::lemma_pack_inv(glyphs, w as int, font_size as int);
    let st = pack(glyphs, w as int, font_size as int);
    lemma_next_pow2_bounds(packed_rows(st) as nat);
}

/// An empty text gives no sprite and a width of zero.
pub proof fn lemma_layout_empty(infos: Seq<(char, CharacterInfos)>)
    ensures
        layout(infos, seq![]) == Seq::<SpriteInfos>::empty(),
        text_width(infos, seq![]) == 0,
{
}

/// A character that the font cannot draw adds no sprite and no width.
pub proof fn lemma_layout_skips_unrenderable(infos: Seq<(char, CharacterInfos)>, text: Seq<char>, c: char)
    requires
        lookup(infos, c) is None,
    ensures
        layout(infos, text.push(c)) == layout(infos, text),
        text_width(infos, text.push(c)) == text_width(infos, text),
{
    assert(text.push(c).drop_last() == text);
}

/// A single character that the font can draw gives one sprite, as wide as
/// the character, and the character's advance as width.
pub proof fn lemma_layout_one(infos: Seq<(char, CharacterInfos)>, c: char)
    requires
        lookup(infos, c) is Some,
    ensures
        layout(infos, seq![c]).len() == 1,
        layout(infos, seq![c])[0].right_position - layout(infos, seq![c])[0].left_position == 64
            * lookup(infos, c)->0.size.0,
        text_width(infos, seq![c]) == advance(lookup(infos, c)->0),
{
    let e = Seq::<char>::empty();
    assert(seq![c].drop_last() == e);
    assert(seq![c].last() == c);
    assert(layout(infos, e).len() == 0);
    assert(text_width(infos, e) == 0);
}

} // verus!
