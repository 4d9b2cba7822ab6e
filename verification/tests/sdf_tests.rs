use pbf_glyphs::bitmap::BitmapGlyph;
use pbf_glyphs::error::SdfGlyphError;
use pbf_glyphs::sdf::SDF_INF;
use pbf_glyphs::sdf::SQ_UNIT;
use pbf_glyphs::transform::dt;

#[test]
fn test_empty_glyph_unbuffered() {
    // An empty glyph, as a font encodes a space: the renderer must produce
    // empty fields, not an error.
    let bitmap = BitmapGlyph::new(Vec::new(), 0, 0, 0).unwrap();
    let (outer, inner) = bitmap.render_sdf_fields();
    assert_eq!(outer, Vec::new());
    assert_eq!(inner, Vec::new());
}

#[test]
fn test_empty_glyph_buffered() {
    // An empty glyph with a 3px buffer: every padded pixel is perfectly
    // outside, so the outer field holds the infinite potential everywhere
    // and the inner field is zero everywhere.  The signed distance a
    // caller derives from that is the positive clamp, exactly 1, at every
    // pixel.
    let data = vec![0u8; 36];
    let bitmap = BitmapGlyph::new(data, 0, 0, 3).unwrap();
    let (outer, inner) = bitmap.render_sdf_fields();
    assert_eq!(outer, vec![SDF_INF; 36]);
    assert_eq!(inner, vec![0i64; 36]);
}

#[test]
fn test_dimension_mismatch() {
    // The data length must match the padded dimensions exactly; nothing is
    // truncated or padded silently.
    let r = BitmapGlyph::new(vec![0u8; 35], 0, 0, 3);
    assert!(matches!(r, Err(SdfGlyphError::InvalidDataDimensions(_, 36, 35))));
    let r = BitmapGlyph::from_unbuffered(&[1u8, 2, 3], 2, 2, 1);
    assert!(matches!(r, Err(SdfGlyphError::InvalidDataDimensions(_, 4, 3))));
}

#[test]
fn test_from_unbuffered_pads() {
    // Buffering centers the raw rows inside a zeroed margin.
    let buffered = BitmapGlyph::from_unbuffered(&[10u8, 200], 2, 1, 1).unwrap();
    let direct = BitmapGlyph::new(
        vec![
            0, 0, 0, 0, //
            0, 10, 200, 0, //
            0, 0, 0, 0,
        ],
        2,
        1,
        1,
    )
    .unwrap();
    assert_eq!(buffered, direct);
}

#[test]
fn test_dt_line() {
    // One-dimensional transform with unit weight: each output is the least
    // squared distance plus sample over all source positions.
    let f = vec![0i64, 9, 100];
    let r = dt(&f, 1);
    assert_eq!(r, vec![0, 1, 4]);

    // The weight scales the squared-distance term only.
    let r = dt(&f, 3);
    assert_eq!(r, vec![0, 3, 12]);
}

#[test]
fn test_dt_plateau() {
    // A flat line of equal samples is a fixed point of the transform.
    let f = vec![7i64; 5];
    assert_eq!(dt(&f, 4), vec![7; 5]);
}

#[test]
fn test_single_pixel_fields() {
    // A single opaque pixel with a 1px buffer.  Outside distances grow
    // with the squared distance to the center; inside distances are zero
    // except at the center itself, whose nearest non-inside pixel is one
    // step away.
    let bitmap = BitmapGlyph::from_unbuffered(&[255u8], 1, 1, 1).unwrap();
    let (outer, inner) = bitmap.render_sdf_fields();
    let s = SQ_UNIT;
    assert_eq!(
        outer,
        vec![
            2 * s, s, 2 * s, //
            s, 0, s, //
            2 * s, s, 2 * s,
        ]
    );
    assert_eq!(
        inner,
        vec![
            0, 0, 0, //
            0, s, 0, //
            0, 0, 0,
        ]
    );
}
