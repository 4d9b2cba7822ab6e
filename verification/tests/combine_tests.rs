use pbf_glyphs::combine::combine_glyphs;
use pbf_glyphs::combine::empty_font_stack;
use pbf_glyphs::combine::join_names;
use pbf_glyphs::model::Fontstack;
use pbf_glyphs::model::Glyph;
use pbf_glyphs::model::GlyphMetrics;
use pbf_glyphs::model::Glyphs;
use pbf_glyphs::model::glyph_record;

fn glyph_with(id: u32, bitmap: Vec<u8>) -> Glyph {
    Glyph {
        id: Some(id),
        bitmap: Some(bitmap),
        width: None,
        height: None,
        left: None,
        top: None,
        advance: None,
    }
}

fn stack_named(name: &str, glyphs: Vec<Glyph>) -> Glyphs {
    Glyphs {
        stacks: vec![Fontstack { name: Some(String::from(name)), range: None, glyphs }],
    }
}

#[test]
fn test_combiner_precedence() {
    // Font A wins on the shared id 65; B contributes 66; the merged name
    // joins both and the range spans the retained ids.
    let a = stack_named("A", vec![glyph_with(65, vec![1, 2, 3])]);
    let b = stack_named(
        "B",
        vec![glyph_with(65, vec![9, 9, 9]), glyph_with(66, vec![4, 5, 6])],
    );
    let combined = combine_glyphs(vec![a, b]).unwrap();
    assert_eq!(combined.stacks.len(), 1);
    let stack = &combined.stacks[0];
    assert_eq!(stack.name.as_deref(), Some("A, B"));
    assert_eq!(stack.range.as_deref(), Some("65-66"));
    assert_eq!(stack.glyphs.len(), 2);
    assert_eq!(stack.glyphs[0].id, Some(65));
    assert_eq!(stack.glyphs[0].bitmap.as_deref(), Some(&[1u8, 2, 3][..]));
    assert_eq!(stack.glyphs[1].id, Some(66));
    assert_eq!(stack.glyphs[1].bitmap.as_deref(), Some(&[4u8, 5, 6][..]));
}

#[test]
fn test_combiner_emptiness() {
    // No inputs, or inputs whose stacks hold no glyph at all, combine to
    // absence, not to an empty-but-present stack.
    assert!(combine_glyphs(Vec::new()).is_none());
    let empty_stack = stack_named("Empty", Vec::new());
    assert!(combine_glyphs(vec![empty_stack]).is_none());
}

#[test]
fn test_combiner_skips_missing_ids() {
    // A glyph without an id never reaches the merged stack.
    let mut nameless = glyph_with(7, vec![1]);
    nameless.id = None;
    let a = stack_named("A", vec![nameless]);
    assert!(combine_glyphs(vec![a]).is_none());
}

#[test]
fn test_combiner_single_font() {
    let a = stack_named("Solo", vec![glyph_with(40, vec![8]), glyph_with(33, vec![9])]);
    let combined = combine_glyphs(vec![a]).unwrap();
    let stack = &combined.stacks[0];
    assert_eq!(stack.name.as_deref(), Some("Solo"));
    assert_eq!(stack.range.as_deref(), Some("33-40"));
    assert_eq!(stack.glyphs.len(), 2);
    // Insertion order is kept; the range orders the bounds, not the glyphs.
    assert_eq!(stack.glyphs[0].id, Some(40));
    assert_eq!(stack.glyphs[1].id, Some(33));
}

#[test]
fn test_combined_stack_round_trips() {
    // A combined stack survives the wire format unchanged.
    let a = stack_named("A", vec![glyph_with(65, vec![1, 2, 3])]);
    let b = stack_named("B", vec![glyph_with(66, vec![4, 5, 6])]);
    let combined = combine_glyphs(vec![a, b]).unwrap();
    let bytes = pbf_glyphs::codec::encode_glyphs(&combined);
    assert_eq!(pbf_glyphs::codec::decode_glyphs(&bytes).unwrap(), combined);
}

#[test]
fn test_join_names() {
    assert_eq!(join_names(&Vec::new()), "");
    assert_eq!(join_names(&vec![String::from("One")]), "One");
    assert_eq!(
        join_names(&vec![String::from("One"), String::from("Two"), String::from("Three")]),
        "One, Two, Three"
    );
}

#[test]
fn test_empty_font_stack() {
    let out = empty_font_stack(String::from("Missing"), 256, 511);
    assert_eq!(out.stacks.len(), 1);
    assert_eq!(out.stacks[0].name.as_deref(), Some("Missing"));
    assert_eq!(out.stacks[0].range.as_deref(), Some("256-511"));
    assert!(out.stacks[0].glyphs.is_empty());
}

#[test]
fn test_glyph_record() {
    let metrics = GlyphMetrics {
        width: 16,
        height: 19,
        left_bearing: 1,
        top_bearing: 14,
        h_advance: 17,
        ascender: 21,
    };
    let record = glyph_record(0x26, vec![5, 6, 7], metrics);
    assert_eq!(record.id, Some(0x26));
    assert_eq!(record.bitmap.as_deref(), Some(&[5u8, 6, 7][..]));
    assert_eq!(record.width, Some(16));
    assert_eq!(record.height, Some(19));
    assert_eq!(record.left, Some(1));
    // The record's top is measured from the ascender down.
    assert_eq!(record.top, Some(-7));
    assert_eq!(record.advance, Some(17));
}
