//! The glyph record model: one glyph's encoded SDF bitmap and layout
//! metrics, grouped into named fontstacks covering a codepoint range,
//! grouped into a top-level collection.
//!
//! Every wire field is optional, and absence is preserved exactly: the
//! binary codec writes a field only when it is present and decoding gives
//! back the same presence, so round trips are bit-exact.

use vstd::prelude::*;

verus! {

/// Layout metrics the rasterizer reports for one glyph, in pixels.
/// Bearings and the ascender follow the usual font conventions and may be
/// negative.
#[derive(Clone, Copy, Debug, PartialEq, Eq)]
pub struct GlyphMetrics {
    /// The unbuffered width of the glyph in px.
    pub width: usize,
    /// The unbuffered height of the glyph in px.
    pub height: usize,
    /// The left bearing of the glyph in px.
    pub left_bearing: i32,
    /// The top bearing of the glyph in px.
    pub top_bearing: i32,
    /// The horizontal advance of the glyph in px.
    pub h_advance: u32,
    /// The typographical ascender in px.
    pub ascender: i32,
}

/// One glyph record of the wire format.
#[derive(Clone, Debug, PartialEq)]
pub struct Glyph {
    /// The codepoint.
    pub id: Option<u32>,
    /// The quantized SDF, one byte per pixel of the padded bitmap.
    pub bitmap: Option<Vec<u8>>,
    /// The unbuffered width in px.
    pub width: Option<u32>,
    /// The unbuffered height in px.
    pub height: Option<u32>,
    /// The left bearing in px.
    pub left: Option<i32>,
    /// The distance from the baseline-relative top: top bearing minus
    /// ascender.
    pub top: Option<i32>,
    /// The horizontal advance in px.
    pub advance: Option<u32>,
}

/// The mathematical model of a glyph record.
pub ghost struct GlyphModel {
    pub id: Option<u32>,
    pub bitmap: Option<Seq<u8>>,
    pub width: Option<u32>,
    pub height: Option<u32>,
    pub left: Option<i32>,
    pub top: Option<i32>,
    pub advance: Option<u32>,
}

impl View for Glyph {
    type V = GlyphModel;

    open spec fn view(&self) -> GlyphModel {
        GlyphModel {
            id: self.id,
            bitmap: match self.bitmap {
                Some(b) => Some(b@),
                None => None,
            },
            width: self.width,
            height: self.height,
            left: self.left,
            top: self.top,
            advance: self.advance,
        }
    }
}

/// The glyph record with no field present.
pub open spec fn glyph_model_empty() -> GlyphModel {
    GlyphModel {
        id: None,
        bitmap: None,
        width: None,
        height: None,
        left: None,
        top: None,
        advance: None,
    }
}

impl Glyph {
    /// A record with no field present.
    pub fn new() -> (r: Glyph)
        ensures
            r@ == glyph_model_empty(),
    {
        Glyph {
            id: None,
            bitmap: None,
            width: None,
            height: None,
            left: None,
            top: None,
            advance: None,
        }
    }

    /// Sets the codepoint.
    pub fn set_id(&mut self, id: u32)
        ensures
            final(self)@ == (GlyphModel { id: Some(id), ..old(self)@ }),
    {
        self.id = Some(id);
    }

    /// Sets the quantized SDF bytes.
    pub fn set_bitmap(&mut self, bitmap: Vec<u8>)
        ensures
            final(self)@ == (GlyphModel { bitmap: Some(bitmap@), ..old(self)@ }),
    {
        self.bitmap = Some(bitmap);
    }

    /// Sets the unbuffered width.
    pub fn set_width(&mut self, width: u32)
        ensures
            final(self)@ == (GlyphModel { width: Some(width), ..old(self)@ }),
    {
        self.width = Some(width);
    }

    /// Sets the unbuffered height.
    pub fn set_height(&mut self, height: u32)
        ensures
            final(self)@ == (GlyphModel { height: Some(height), ..old(self)@ }),
    {
        self.height = Some(height);
    }

    /// Sets the left bearing.
    pub fn set_left(&mut self, left: i32)
        ensures
            final(self)@ == (GlyphModel { left: Some(left), ..old(self)@ }),
    {
        self.left = Some(left);
    }

    /// Sets the top, measured from the ascender down.
    pub fn set_top(&mut self, top: i32)
        ensures
            final(self)@ == (GlyphModel { top: Some(top), ..old(self)@ }),
    {
        self.top = Some(top);
    }

    /// Sets the horizontal advance.
    pub fn set_advance(&mut self, advance: u32)
        ensures
            final(self)@ == (GlyphModel { advance: Some(advance), ..old(self)@ }),
    {
        self.advance = Some(advance);
    }
}

/// A named, range-bounded collection of glyph records for one (possibly
/// merged) font.
#[derive(Clone, Debug, PartialEq)]
pub struct Fontstack {
    /// Font family and style, or the joined names of merged stacks.
    pub name: Option<String>,
    /// `"<start>-<end>"`, the inclusive codepoint bounds covered.
    pub range: Option<String>,
    /// The glyph records, in generation or merge order.
    pub glyphs: Vec<Glyph>,
}

/// The mathematical model of a fontstack.
pub ghost struct FontstackModel {
    pub name: Option<Seq<char>>,
    pub range: Option<Seq<char>>,
    pub glyphs: Seq<GlyphModel>,
}

impl View for Fontstack {
    type V = FontstackModel;

    open spec fn view(&self) -> FontstackModel {
        FontstackModel {
            name: match self.name {
                Some(s) => Some(s@),
                None => None,
            },
            range: match self.range {
                Some(s) => Some(s@),
                None => None,
            },
            glyphs: self.glyphs@.map_values(|g: Glyph| g@),
        }
    }
}

/// The fontstack with no field present and no glyphs.
pub open spec fn fontstack_model_empty() -> FontstackModel {
    FontstackModel { name: None, range: None, glyphs: Seq::empty() }
}

impl Fontstack {
    /// A fontstack with no name, no range and no glyphs.
    pub fn new() -> (r: Fontstack)
        ensures
            r@ == fontstack_model_empty(),
    {
        let r = Fontstack { name: None, range: None, glyphs: Vec::new() };
        proof {
            assert(r.glyphs@.map_values(|g: Glyph| g@) =~= Seq::<GlyphModel>::empty());
        }
        r
    }

    /// Sets the stack's name.
    pub fn set_name(&mut self, name: String)
        ensures
            final(self)@ == (FontstackModel { name: Some(name@), ..old(self)@ }),
    {
        self.name = Some(name);
    }

    /// Sets the stack's covered range.
    pub fn set_range(&mut self, range: String)
        ensures
            final(self)@ == (FontstackModel { range: Some(range@), ..old(self)@ }),
    {
        self.range = Some(range);
    }
}

/// The top-level collection: an ordered sequence of fontstacks.
#[derive(Clone, Debug, PartialEq)]
pub struct Glyphs {
    /// The fontstacks held.
    pub stacks: Vec<Fontstack>,
}

/// The mathematical model of the top-level collection.
pub ghost struct GlyphsModel {
    pub stacks: Seq<FontstackModel>,
}

impl View for Glyphs {
    type V = GlyphsModel;

    open spec fn view(&self) -> GlyphsModel {
        GlyphsModel { stacks: self.stacks@.map_values(|s: Fontstack| s@) }
    }
}

impl Glyphs {
    /// A collection with no stacks.
    pub fn new() -> (r: Glyphs)
        ensures
            r@.stacks == Seq::<FontstackModel>::empty(),
    {
        let r = Glyphs { stacks: Vec::new() };
        proof {
            assert(r.stacks@.map_values(|s: Fontstack| s@) =~= Seq::<FontstackModel>::empty());
        }
        r
    }
}

/// Assembles the wire record of one rendered glyph: the codepoint, its
/// quantized SDF bytes, and the rasterizer's metrics, with the record's
/// `top` measured from the ascender down (top bearing minus ascender).
pub fn glyph_record(char_code: u32, bitmap: Vec<u8>, metrics: GlyphMetrics) -> (r: Glyph)
    requires
        metrics.width <= u32::MAX,
        metrics.height <= u32::MAX,
        i32::MIN <= metrics.top_bearing - metrics.ascender <= i32::MAX,
    ensures
        r@ == (GlyphModel {
            id: Some(char_code),
            bitmap: Some(bitmap@),
            width: Some(metrics.width as u32),
            height: Some(metrics.height as u32),
            left: Some(metrics.left_bearing),
            top: Some((metrics.top_bearing - metrics.ascender) as i32),
            advance: Some(metrics.h_advance),
        }),
{
    Glyph {
        id: Some(char_code),
        bitmap: Some(bitmap),
        width: Some(metrics.width as u32),
        height: Some(metrics.height as u32),
        left: Some(metrics.left_bearing),
        top: Some(metrics.top_bearing - metrics.ascender),
        advance: Some(metrics.h_advance),
    }
}

} // verus!
