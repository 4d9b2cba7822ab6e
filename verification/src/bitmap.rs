//! Padded alpha bitmaps, the input of the SDF renderer.

use crate::error::SdfGlyphError;
use vstd::arithmetic::div_mod::lemma_fundamental_div_mod;
use vstd::arithmetic::div_mod::lemma_fundamental_div_mod_converse;
use vstd::prelude::*;

verus! {

/// A raw bitmap containing only the alpha channel.
///
/// The data is row-major and covers the glyph plus `buffer` pixels of
/// padding on every side, so it holds
/// `(width + 2 * buffer) * (height + 2 * buffer)` bytes.
#[derive(Debug, PartialEq, Eq)]
pub struct BitmapGlyph {
    pub(crate) alpha: Vec<u8>,
    pub(crate) width: usize,
    pub(crate) height: usize,
    pub(crate) buffer: usize,
}

/// The padded copy of an unbuffered alpha bitmap: `buffer` zero pixels on
/// every side, the original rows centered.
pub open spec fn padded_alpha(alpha: Seq<u8>, width: int, height: int, buffer: int) -> Seq<u8> {
    Seq::new(
        (((width + 2 * buffer) * (height + 2 * buffer)) as nat),
        |i: int|
            {
                let x = i % (width + 2 * buffer);
                let y = i / (width + 2 * buffer);
                if buffer <= x < buffer + width && buffer <= y < buffer + height {
                    alpha[(y - buffer) * width + (x - buffer)]
                } else {
                    0u8
                }
            },
    )
}

impl BitmapGlyph {
    /// The padded alpha bytes.
    pub closed spec fn spec_alpha(&self) -> Seq<u8> {
        self.alpha@
    }

    /// The unbuffered width in pixels.
    pub closed spec fn spec_width(&self) -> int {
        self.width as int
    }

    /// The unbuffered height in pixels.
    pub closed spec fn spec_height(&self) -> int {
        self.height as int
    }

    /// The padding in pixels on each side.
    pub closed spec fn spec_buffer(&self) -> int {
        self.buffer as int
    }

    /// The alpha length matches the padded dimensions.
    pub open spec fn wf(&self) -> bool {
        self.spec_alpha().len() == (self.spec_width() + 2 * self.spec_buffer()) * (
        self.spec_height() + 2 * self.spec_buffer())
    }

    /// The spec accessors name exactly the fields.
    pub(crate) proof fn lemma_views(&self)
        ensures
            self.spec_alpha() == self.alpha@,
            self.spec_width() == self.width as int,
            self.spec_height() == self.height as int,
            self.spec_buffer() == self.buffer as int,
    {
    }

    /// Creates a new bitmap from data that is already padded.
    ///
    /// Fails with `InvalidDataDimensions` when the data length does not
    /// match the dimensions; it is never silently truncated or padded.
    pub fn new(alpha: Vec<u8>, width: usize, height: usize, buffer: usize) -> (r: Result<
        BitmapGlyph,
        SdfGlyphError,
    >)
        ensures
            match r {
                Ok(b) => {
                    &&& alpha@.len() == (width + 2 * buffer) * (height + 2 * buffer)
                    &&& b.spec_alpha() == alpha@
                    &&& b.spec_width() == width
                    &&& b.spec_height() == height
                    &&& b.spec_buffer() == buffer
                    &&& b.wf()
                },
                Err(e) => {
                    &&& alpha@.len() != (width + 2 * buffer) * (height + 2 * buffer)
                    &&& e is InvalidDataDimensions
                },
            },
    {
        let actual = alpha.len();
        let expected: Option<usize> = match buffer.checked_mul(2) {
            Some(b2) => match width.checked_add(b2) {
                Some(bw) => match height.checked_add(b2) {
                    Some(bh) => bw.checked_mul(bh),
                    None => None,
                },
                None => None,
            },
            None => None,
        };
        match expected {
            Some(e) => {
                if actual == e {
                    Ok(BitmapGlyph { alpha, width, height, buffer })
                } else {
                    Err(
                        SdfGlyphError::InvalidDataDimensions(
                            "(width + buffer * 2) * (height + buffer * 2)",
                            e,
                            actual,
                        ),
                    )
                }
            },
            None => {
                // The true product exceeds `usize::MAX`, so no in-memory
                // buffer can match it.
                proof {
                    assert((width + 2 * buffer) * (height + 2 * buffer) > usize::MAX) by (
                    nonlinear_arith)
                        requires
                            width <= usize::MAX,
                            height <= usize::MAX,
                            buffer <= usize::MAX,
                            2 * buffer > usize::MAX || width + 2 * buffer > usize::MAX || height + 2
                                * buffer > usize::MAX || (width + 2 * buffer) * (height + 2 * buffer)
                                > usize::MAX,
                    ;
                }
                Err(
                    SdfGlyphError::InvalidDataDimensions(
                        "(width + buffer * 2) * (height + buffer * 2)",
                        usize::MAX,
                        actual,
                    ),
                )
            },
        }
    }
    /// Creates a new bitmap from a raw data source, buffered by `buffer`
    /// zero pixels on every side.
    ///
    /// Fails with `InvalidDataDimensions` when the data length does not
    /// match `width * height`.
    pub fn from_unbuffered(alpha: &[u8], width: usize, height: usize, buffer: usize) -> (r: Result<
        BitmapGlyph,
        SdfGlyphError,
    >)
        requires
            (width + 2 * buffer) * (height + 2 * buffer) <= usize::MAX,
        ensures
            match r {
                Ok(b) => {
                    &&& alpha@.len() == width * height
                    &&& b.spec_alpha() == padded_alpha(alpha@, width as int, height as int, buffer as int)
                    &&& b.spec_width() == width
                    &&& b.spec_height() == height
                    &&& b.spec_buffer() == buffer
                    &&& b.wf()
                },
                Err(e) => {
                    &&& alpha@.len() != width * height
                    &&& e is InvalidDataDimensions
                },
            },
    {
        let actual = alpha.len();
        let expected: Option<usize> = width.checked_mul(height);
        let matches: bool = match expected {
            Some(e) => actual == e,
            None => false,
        };
        if !matches {
            proof {
                if alpha@.len() == width * height {
                    assert(width * height <= usize::MAX);
                }
            }
            let shown = match expected {
                Some(e) => e,
                None => usize::MAX,
            };
            return Err(SdfGlyphError::InvalidDataDimensions("width * height", shown, actual));
        }
        proof {
            assert(width + 2 * buffer <= usize::MAX && height + 2 * buffer <= usize::MAX) by (
            nonlinear_arith)
                requires
                    width <= usize::MAX,
                    height <= usize::MAX,
                    buffer >= 0,
                    (width + 2 * buffer) * (height + 2 * buffer) <= usize::MAX,
            ;
        }
        let double_buffer = buffer + buffer;
        let bw = width + double_buffer;
        let bh = height + double_buffer;
        let total = bw * bh;
        let ghost goal = padded_alpha(alpha@, width as int, height as int, buffer as int);

        let mut buffered_data: Vec<u8> = vec![0u8; total];
        proof {
            assert(buffered_data@ =~= copied_below(
                alpha@,
                width as int,
                height as int,
                buffer as int,
                0,
                0,
            ));
        }

        let mut x: usize = 0;
        while x < width
            invariant
                x <= width,
                alpha@.len() == width * height,
                width * height <= usize::MAX,
                bw == width + 2 * buffer,
                bh == height + 2 * buffer,
                total == bw * bh,
                total <= usize::MAX,
                buffered_data@ == copied_below(
                    alpha@,
                    width as int,
                    height as int,
                    buffer as int,
                    x as int,
                    0,
                ),
            decreases width - x,
        {
            let mut y: usize = 0;
            while y < height
                invariant
                    x < width,
                    y <= height,
                    alpha@.len() == width * height,
                    width * height <= usize::MAX,
                    bw == width + 2 * buffer,
                    bh == height + 2 * buffer,
                    total == bw * bh,
                    total <= usize::MAX,
                    buffered_data@ == copied_below(
                        alpha@,
                        width as int,
                        height as int,
                        buffer as int,
                        x as int,
                        y as int,
                    ),
                decreases height - y,
            {
                proof {
                    assert((y + buffer) * bw + (x + buffer) < total && y * width + x < width
                        * height) by (nonlinear_arith)
                        requires
                            0 <= x < width,
                            0 <= y < height,
                            buffer >= 0,
                            bw == width + 2 * buffer,
                            bh == height + 2 * buffer,
                            total == bw * bh,
                    ;
                }
                let dst = (y + buffer) * bw + (x + buffer);
                let src = y * width + x;
                buffered_data.set(dst, alpha[src]);
                proof {
                    lemma_copy_step(
                        alpha@,
                        width as int,
                        height as int,
                        buffer as int,
                        x as int,
                        y as int,
                        buffered_data@,
                    );
                }
                y = y + 1;
            }
            proof {
                assert(copied_below(
                    alpha@,
                    width as int,
                    height as int,
                    buffer as int,
                    x as int,
                    height as int,
                ) =~= copied_below(
                    alpha@,
                    width as int,
                    height as int,
                    buffer as int,
                    x as int + 1,
                    0,
                ));
            }
            x = x + 1;
        }
        proof {
            assert(buffered_data@ =~= goal);
        }

        Ok(BitmapGlyph { alpha: buffered_data, width, height, buffer })
    }
}

/// The state of the copy loop in [`BitmapGlyph::from_unbuffered`]: source
/// columns before `cx` are fully copied into the padded buffer, and in
/// column `cx` the rows before `cy` are; every other position is zero.
pub open spec fn copied_below(
    alpha: Seq<u8>,
    width: int,
    height: int,
    buffer: int,
    cx: int,
    cy: int,
) -> Seq<u8> {
    Seq::new(
        (((width + 2 * buffer) * (height + 2 * buffer)) as nat),
        |i: int|
            {
                let x = i % (width + 2 * buffer) - buffer;
                let y = i / (width + 2 * buffer) - buffer;
                if 0 <= x < width && 0 <= y < height && (x < cx || (x == cx && y < cy)) {
                    alpha[y * width + x]
                } else {
                    0u8
                }
            },
    )
}

/// Writing source pixel `(x, y)` into the padded buffer advances the copy
/// state by one row.
proof fn lemma_copy_step(
    alpha: Seq<u8>,
    width: int,
    height: int,
    buffer: int,
    x: int,
    y: int,
    updated: Seq<u8>,
)
    requires
        0 <= x < width,
        0 <= y < height,
        0 <= buffer,
        alpha.len() == width * height,
        updated == copied_below(alpha, width, height, buffer, x, y).update(
            (y + buffer) * (width + 2 * buffer) + (x + buffer),
            alpha[y * width + x],
        ),
    ensures
        updated =~= copied_below(alpha, width, height, buffer, x, y + 1),
{
    let bw = width + 2 * buffer;
    let dst = (y + buffer) * bw + (x + buffer);
    assert(0 <= dst < bw * (height + 2 * buffer)) by (nonlinear_arith)
        requires
            0 <= x < width,
            0 <= y < height,
            0 <= buffer,
            bw == width + 2 * buffer,
            dst == (y + buffer) * bw + (x + buffer),
    ;
    lemma_fundamental_div_mod_converse(dst, bw, y + buffer, x + buffer);
    assert forall|i: int| 0 <= i < updated.len() implies updated[i] == copied_below(
        alpha,
        width,
        height,
        buffer,
        x,
        y + 1,
    )[i] by {
        lemma_fundamental_div_mod(i, bw);
        if i != dst && i % bw == x + buffer && i / bw == y + buffer {
            // A position other than `dst` must have coordinates differing
            // from `(x + buffer, y + buffer)`.
            assert(i == bw * (i / bw) + i % bw);
            assert(bw * (y + buffer) == (y + buffer) * bw) by (nonlinear_arith);
            assert(false);
        }
    }
}

} // verus!
