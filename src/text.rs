use vstd::prelude::*;
use std::collections::HashMap;

verus! {

broadcast use vstd::std_specs::hash::group_hash_axioms;

#[verifier::external_type_specification]
#[verifier::external_body]
pub struct ExFont(fontdue::Font);

/// Whether `font` has a glyph of its own for `c`, as `Font::has_glyph` says.
pub uninterp spec fn glyph_in(font: fontdue::Font, c: char) -> bool;

/// Relies on fontdue's `Font::has_glyph`: a lookup of the character in the
/// font's own character map, so the answer depends on the font and the
/// character alone.
pub assume_specification[ fontdue::Font::has_glyph ](font: &fontdue::Font, character: char) -> (r: bool)
    ensures
        r == glyph_in(*font, character),
;

/// A rasterized glyph: its coverage bitmap, `width` by `height` bytes row by
/// row, 0 for no coverage and 255 for full.
pub struct Glyph {
    pub width: usize,
    pub height: usize,
    pub coverage: Vec<u8>,
}

pub ghost struct GlyphView {
    pub width: nat,
    pub height: nat,
    pub coverage: Seq<u8>,
}

impl View for Glyph {
    type V = GlyphView;

    open spec fn view(&self) -> GlyphView {
        GlyphView { width: self.width as nat, height: self.height as nat, coverage: self.coverage@ }
    }
}

/// The glyph that stands for a character no font can draw.
pub open spec fn blank_glyph() -> GlyphView {
    GlyphView { width: 0, height: 0, coverage: Seq::empty() }
}

impl Glyph {
    pub fn new(width: usize, height: usize, coverage: Vec<u8>) -> (g: Glyph)
        ensures
            g@ == (GlyphView { width: width as nat, height: height as nat, coverage: coverage@ }),
    {
        Glyph { width, height, coverage }
    }

    /// An empty glyph: nothing is drawn for it.
    pub fn blank() -> (g: Glyph)
        ensures
            g@ == blank_glyph(),
    {
        let g = Glyph { width: 0, height: 0, coverage: Vec::new() };
        assert(g@.coverage =~= Seq::<u8>::empty());
        g
    }
}

/// Number of characters whose glyphs are rasterized up front: the Latin-1
/// range, looked up by code point.
pub const LATIN1_LEN: usize = 256;

/// Whether `c` is ASCII.
pub open spec fn is_ascii(c: char) -> bool {
    (c as u32) < 128
}

/// The glyph cache, mathematically: the table for the Latin-1 range and the
/// glyphs memoized since, keyed by code point.
pub ghost struct GlyphCacheView {
    pub latin1: Seq<GlyphView>,
    pub others: Map<u32, GlyphView>,
}

impl GlyphCacheView {
    /// Whether a glyph can be looked up for `c`.
    pub open spec fn has(self, c: char) -> bool {
        (c as u32) < LATIN1_LEN || self.others.contains_key(c as u32)
    }

    /// The glyph that is drawn for `c`.
    pub open spec fn glyph(self, c: char) -> GlyphView {
        if (c as u32) < LATIN1_LEN {
            self.latin1[c as int]
        } else {
            self.others[c as u32]
        }
    }
}

/// What `store` memoizes for a character: the rasterized glyph, or the
/// blank one when no font had a glyph or the rasterizer drew nothing.
pub open spec fn memo_of(raster: Option<GlyphView>) -> GlyphView {
    match raster {
        Some(g) => if g.coverage.len() == 0 {
            blank_glyph()
        } else {
            g
        },
        None => blank_glyph(),
    }
}

/// Rasterized glyphs: a table for the Latin-1 range, filled up front, and a
/// map for the other characters, filled on first use.
pub struct GlyphCache {
    latin1: Vec<Glyph>,
    others: HashMap<u32, Glyph>,
}

impl View for GlyphCache {
    type V = GlyphCacheView;

    closed spec fn view(&self) -> GlyphCacheView {
        GlyphCacheView {
            latin1: self.latin1@.map_values(|g: Glyph| g@),
            others: self.others@.map_values(|g: Glyph| g@),
        }
    }
}

impl GlyphCache {
    /// A cache whose Latin-1 table is `latin1`, indexed by code point.
    pub fn new(latin1: Vec<Glyph>) -> (r: GlyphCache)
        requires
            latin1@.len() == LATIN1_LEN,
        ensures
            r.wf(),
            r@.latin1 == latin1@.map_values(|g: Glyph| g@),
            r@.others == Map::<u32, GlyphView>::empty(),
    {
        let r = GlyphCache { latin1, others: HashMap::new() };
        assert(r@.others =~= Map::<u32, GlyphView>::empty());
        r
    }

    pub closed spec fn wf(&self) -> bool {
        self.latin1@.len() == LATIN1_LEN
    }

    /// Whether `c` still has to be rasterized: it is not ASCII and has not
    /// been memoized.
    pub fn needs_raster(&self, c: char) -> (r: bool)
        ensures
            r == (!is_ascii(c) && !self@.others.contains_key(c as u32)),
    {
        if (c as u32) < 128 {
            return false;
        }
        !self.others.contains_key(&(c as u32))
    }

    /// Memoizes what rasterizing `c` gave: the glyph, or the blank glyph when
    /// there was none (`None`) or it is empty. Nothing changes for a
    /// character that needs no rasterizing.
    pub fn store(&mut self, c: char, raster: Option<Glyph>)
        requires
            old(self).wf(),
        ensures
            final(self).wf(),
            final(self)@.latin1 == old(self)@.latin1,
            (is_ascii(c) || old(self)@.others.contains_key(c as u32)) ==> final(self)@.others == old(self)@.others,
            !(is_ascii(c) || old(self)@.others.contains_key(c as u32)) ==> final(self)@.others == old(self)@.others.insert(
                c as u32,
                memo_of(
                    match raster {
                        Some(g) => Some(g@),
                        None => None,
                    },
                ),
            ),
    {
        if !self.needs_raster(c) {
            return;
        }
        let g = match raster {
            Some(g) => if g.coverage.len() == 0 {
                Glyph::blank()
            } else {
                g
            },
            None => Glyph::blank(),
        };
        let ghost gv = g@;
        self.others.insert(c as u32, g);
        assert(self@.others =~= old(self)@.others.insert(c as u32, gv));
    }

    /// The glyph drawn for `c`.
    pub fn get(&self, c: char) -> (r: &Glyph)
        requires
            self.wf(),
            self@.has(c),
        ensures
            r@ == self@.glyph(c),
    {
        let k = c as u32;
        if (k as usize) < LATIN1_LEN {
            &self.latin1[k as usize]
        } else {
            match self.others.get(&k) {
                Some(g) => g,
                None => {
                    assert(false);
                    &self.latin1[0]
                },
            }
        }
    }
}

/// The first font in priority order whose answer is yes, given each font's
/// answer to whether it has a glyph for a character.
pub fn first_with_glyph(has_glyph: &[bool]) -> (r: Option<usize>)
    ensures
        r matches Some(i) ==> i < has_glyph@.len() && has_glyph@[i as int] && forall|j: int|
            0 <= j < i ==> !#[trigger] has_glyph@[j],
        r is None ==> forall|j: int| 0 <= j < has_glyph@.len() ==> !#[trigger] has_glyph@[j],
{
    let mut i: usize = 0;
    while i < has_glyph.len()
        invariant
            0 <= i <= has_glyph@.len(),
            forall|j: int| 0 <= j < i ==> has_glyph@[j] != true,
        decreases has_glyph.len() - i,
    {
        if has_glyph[i] {
            return Some(i);
        }
        i += 1;
    }
    None
}

/// The first font in priority order that has a glyph for `c`, if any.
pub fn font_for_char(fonts: &Vec<fontdue::Font>, c: char) -> (r: Option<usize>)
    ensures
        r matches Some(i) ==> i < fonts@.len() && glyph_in(fonts@[i as int], c) && forall|j: int|
            0 <= j < i ==> !glyph_in(#[trigger] fonts@[j], c),
        r is None ==> forall|j: int| 0 <= j < fonts@.len() ==> !glyph_in(#[trigger] fonts@[j], c),
{
    let mut answers: Vec<bool> = Vec::with_capacity(fonts.len());
    let mut i: usize = 0;
    while i < fonts.len()
        invariant
            0 <= i <= fonts@.len(),
            answers@.len() == i,
            forall|j: int| 0 <= j < i ==> answers@[j] == glyph_in(#[trigger] fonts@[j], c),
        decreases fonts.len() - i,
    {
        answers.push(fonts[i].has_glyph(c));
        i += 1;
    }
    let r = first_with_glyph(answers.as_slice());
    proof {
        if r is None {
            assert forall|j: int| 0 <= j < fonts@.len() implies !glyph_in(#[trigger] fonts@[j], c) by {
                assert(answers@[j] == glyph_in(fonts@[j], c));
            }
        } else {
            let k = r->0 as int;
            assert(answers@[k] == glyph_in(fonts@[k], c));
            assert forall|j: int| 0 <= j < k implies !glyph_in(#[trigger] fonts@[j], c) by {
                assert(answers@[j] == glyph_in(fonts@[j], c));
            }
        }
    }
    r
}

} // verus!
